//! The per-CPU strategy: one locked slab per CPU, each recording its owner CPU
//! in its extension. Allocation serves from the current CPU's slab; a slot is
//! always returned to the slab of the CPU that owns it.
use vstd::prelude::*;

use crate::heap::{is_slot_size, SlabSlotAlloc};
use crate::slab::{is_page_addr, lemma_same_page, lemma_slot_aligned, FreeSlabSlot, Slab, SlabExt};
use crate::slab_v1::SinglePageSlabCache;

verus! {

/// Per-CPU single-slab caches of one slot size.
pub struct ScalableSlabCache {
    local_slab_caches: Vec<SinglePageSlabCache>,
    slot_size: usize,
}

impl ScalableSlabCache {
    /// The cache of each CPU, indexed by CPU.
    pub closed spec fn caches(&self) -> Seq<SinglePageSlabCache> {
        self.local_slab_caches@
    }

    /// The slot size of every slab, in bytes.
    pub closed spec fn size(&self) -> int {
        self.slot_size as int
    }

    /// The number of CPUs that have a cache.
    pub open spec fn nr_cpus(&self) -> int {
        self.caches().len() as int
    }

    /// The slab of CPU `cpu`.
    pub open spec fn slab_on(&self, cpu: int) -> Slab {
        self.caches()[cpu].slab()->0
    }

    /// The invariant: every CPU's cache holds a slab of the slot size on a page
    /// of its own, recording that CPU as its owner.
    pub open spec fn wf(&self) -> bool {
        &&& is_slot_size(self.size())
        &&& forall|i: int|
            #![trigger self.caches()[i]]
            0 <= i < self.nr_cpus() ==> self.caches()[i].ready() && self.slab_on(i).slot_size() == self.size()
                && self.slab_on(i).meta().ext == SlabExt::OwnerCpu(i as usize)
        &&& forall|i: int, j: int|
            0 <= i < self.nr_cpus() && 0 <= j < self.nr_cpus() && i != j ==> (#[trigger] self.slab_on(i)).page()
                != (#[trigger] self.slab_on(j)).page()
    }

    /// The addresses of the slots of all CPUs' slabs.
    pub open spec fn all_slots(&self) -> Set<int> {
        Set::new(|a: int| exists|i: int| 0 <= i < self.nr_cpus() && #[trigger] self.caches()[i].slot_set().contains(a))
    }

    /// The addresses of the free slots of all CPUs' slabs.
    pub open spec fn all_free(&self) -> Set<int> {
        Set::new(|a: int| exists|i: int| 0 <= i < self.nr_cpus() && #[trigger] self.caches()[i].free_set().contains(a))
    }

    /// The slot size of every slab, in bytes.
    pub fn slot_size(&self) -> (r: usize)
        ensures
            r == self.size(),
    {
        self.slot_size
    }

    /// How many times the lock of the slab of `cpu` was taken.
    pub fn lock_acquisitions(&self, cpu: usize) -> (r: u64)
        requires
            cpu < self.nr_cpus(),
        ensures
            r == self.caches()[cpu as int].lock_count(),
    {
        self.local_slab_caches[cpu].nr_lock_acquisitions()
    }

    /// A slot belongs to the slab of one CPU only.
    pub proof fn lemma_owner_unique(&self, i: int, j: int, a: int)
        requires
            self.wf(),
            0 <= i < self.nr_cpus(),
            0 <= j < self.nr_cpus(),
            self.slab_on(i).owns(a),
            self.slab_on(j).owns(a),
        ensures
            i == j,
    {
        self.slab_on(i).lemma_wf();
        self.slab_on(j).lemma_wf();
        if i != j {
            lemma_same_page(self.slab_on(i).page(), self.slab_on(j).page(), a);
        }
    }

    /// Makes a cache for slots of `slot_size` bytes with no CPU yet; `init`
    /// gives every CPU its slab.
    pub fn new(slot_size: usize) -> (r: Self)
        requires
            is_slot_size(slot_size as int),
        ensures
            r.wf(),
            r.nr_cpus() == 0,
            r.size() == slot_size,
    {
        ScalableSlabCache { local_slab_caches: Vec::new(), slot_size }
    }

    /// Gives CPU `i` a fresh slab on `pages[i]`, for every CPU; there are as many
    /// CPUs as pages. Runs once, before any allocation.
    pub fn init(&mut self, pages: Vec<usize>)
        requires
            old(self).wf(),
            old(self).nr_cpus() == 0,
            pages@.no_duplicates(),
            forall|i: int| 0 <= i < pages@.len() ==> is_page_addr(#[trigger] pages@[i] as int),
        ensures
            final(self).wf(),
            final(self).size() == old(self).size(),
            final(self).nr_cpus() == pages@.len(),
            forall|i: int|
                0 <= i < pages@.len() ==> (#[trigger] final(self).slab_on(i)).page() == pages@[i]
                    && final(self).slab_on(i).used() == 0,
    {
        let mut i: usize = 0;
        while i < pages.len()
            invariant
                is_slot_size(self.size()),
                self.size() == old(self).size(),
                i <= pages@.len(),
                self.nr_cpus() == i,
                pages@.no_duplicates(),
                forall|k: int| 0 <= k < pages@.len() ==> is_page_addr(#[trigger] pages@[k] as int),
                forall|k: int|
                    #![trigger self.caches()[k]]
                    0 <= k < i ==> self.caches()[k].ready() && self.slab_on(k).slot_size() == self.size()
                        && self.slab_on(k).meta().ext == SlabExt::OwnerCpu(k as usize)
                        && self.slab_on(k).page() == pages@[k] && self.slab_on(k).used() == 0,
            decreases pages@.len() - i,
        {
            let mut cache = SinglePageSlabCache::new();
            cache.init(pages[i], self.slot_size, SlabExt::OwnerCpu(i));
            self.local_slab_caches.push(cache);
            i = i + 1;
        }
    }

    /// Hands out a free slot of the slab of `cpu`, under that CPU's lock.
    pub fn alloc_on(&mut self, cpu: usize) -> (r: Option<FreeSlabSlot>)
        requires
            old(self).wf(),
            cpu < old(self).nr_cpus(),
        ensures
            final(self).wf(),
            final(self).size() == old(self).size(),
            final(self).nr_cpus() == old(self).nr_cpus(),
            SinglePageSlabCache::new_slot_post(old(self).caches()[cpu as int], final(self).caches()[cpu as int], r),
            forall|j: int| 0 <= j < old(self).nr_cpus() && j != cpu ==> #[trigger] final(self).caches()[j] == old(self).caches()[j],
    {
        let mut cache = self.local_slab_caches.remove(cpu);
        let r = cache.new_slot();
        self.local_slab_caches.insert(cpu, cache);
        proof {
            assert(self.caches() =~= old(self).caches().update(cpu as int, cache));
        }
        r
    }

    /// Returns a slot in use to the slab of its owner CPU, under the owner's
    /// lock, whichever CPU frees it.
    pub fn recycle_slot(&mut self, free_slot: FreeSlabSlot, owner_cpu: usize)
        requires
            old(self).wf(),
            owner_cpu < old(self).nr_cpus(),
            old(self).slab_on(owner_cpu as int).owns(free_slot.addr()),
            free_slot.slot_size() == old(self).size(),
            !old(self).slab_on(owner_cpu as int).free_list().contains(free_slot.addr()),
        ensures
            final(self).wf(),
            final(self).size() == old(self).size(),
            final(self).nr_cpus() == old(self).nr_cpus(),
            SinglePageSlabCache::recycle_post(
                old(self).caches()[owner_cpu as int],
                final(self).caches()[owner_cpu as int],
                free_slot.addr(),
            ),
            forall|j: int|
                0 <= j < old(self).nr_cpus() && j != owner_cpu ==> #[trigger] final(self).caches()[j] == old(self).caches()[j],
    {
        let mut cache = self.local_slab_caches.remove(owner_cpu);
        cache.recycle_slot(free_slot);
        self.local_slab_caches.insert(owner_cpu, cache);
        proof {
            assert(self.caches() =~= old(self).caches().update(owner_cpu as int, cache));
        }
    }

    /// The CPU that owns the slot at `addr`, read from the extension of the slab
    /// whose page holds it.
    pub fn owner_of(&self, addr: usize) -> (r: usize)
        requires
            self.wf(),
            self.all_slots().contains(addr as int),
        ensures
            r < self.nr_cpus(),
            self.slab_on(r as int).owns(addr as int),
    {
        let ghost w = choose|i: int| 0 <= i < self.nr_cpus() && #[trigger] self.caches()[i].slot_set().contains(addr as int);
        proof {
            assert(self.slab_on(w).owns(addr as int));
            self.slab_on(w).lemma_wf();
            assert(self.slab_on(w).page() == addr - addr % 4096) by {
                assert(self.slab_on(w).page() == 4096 * (self.slab_on(w).page() / 4096));
            }
        }
        let page = addr - addr % 4096;
        let mut i: usize = 0;
        while i < self.local_slab_caches.len()
            invariant
                self.wf(),
                0 <= w < self.nr_cpus(),
                self.slab_on(w).page() == page,
                self.slab_on(w).owns(addr as int),
                i <= w,
            decreases self.nr_cpus() - i,
        {
            if self.local_slab_caches[i].slab_page() == page {
                proof {
                    if i != w {
                        assert(self.slab_on(i as int).page() != self.slab_on(w).page());
                    }
                    assert(i == w);
                    assert(self.slab_on(w).meta().ext == SlabExt::OwnerCpu(i));
                }
                let ext = self.local_slab_caches[i].slab_extension();
                assert(ext == SlabExt::OwnerCpu(i));
                return match ext {
                    SlabExt::OwnerCpu(c) => c,
                    SlabExt::NoExt => i,
                };
            }
            proof {
                if i == w {
                    assert(false);
                }
            }
            i = i + 1;
        }
        proof {
            assert(false);
        }
        0
    }
}

/// What one CPU's `new_slot` does to the per-CPU caches, over the sets of
/// slots and of free slots of all CPUs.
pub proof fn lemma_alloc_on_sets(before: ScalableSlabCache, after: ScalableSlabCache, cpu: int, r: Option<FreeSlabSlot>)
    requires
        before.wf(),
        after.wf(),
        0 <= cpu < before.nr_cpus(),
        after.nr_cpus() == before.nr_cpus(),
        SinglePageSlabCache::new_slot_post(before.caches()[cpu], after.caches()[cpu], r),
        forall|j: int| 0 <= j < before.nr_cpus() && j != cpu ==> #[trigger] after.caches()[j] == before.caches()[j],
    ensures
        after.all_slots() == before.all_slots(),
        after.all_free().subset_of(after.all_slots()),
        r matches Some(slot) ==> {
            &&& before.all_free().contains(slot.addr())
            &&& after.all_free() == before.all_free().remove(slot.addr())
        },
        r is None ==> after.all_free() == before.all_free(),
{
    SinglePageSlabCache::lemma_new_slot_sets(before.caches()[cpu], after.caches()[cpu], r);
    lemma_slot_sets_same(before, after);
    lemma_free_within_slots(after);
    if r is Some {
        let a0 = r->0.addr();
        assert(before.caches()[cpu].free_set().contains(a0));
        assert forall|a: int| after.all_free().contains(a) <==> before.all_free().remove(a0).contains(a) by {
            if after.all_free().contains(a) {
                let i = choose|i: int| 0 <= i < after.nr_cpus() && #[trigger] after.caches()[i].free_set().contains(a);
                assert(before.caches()[i].free_set().contains(a));
                if a == a0 {
                    before.caches()[i].lemma_free_is_slot(a);
                    before.caches()[cpu].lemma_free_is_slot(a);
                    before.lemma_owner_unique(i, cpu, a);
                }
            }
            if before.all_free().remove(a0).contains(a) {
                let i = choose|i: int| 0 <= i < before.nr_cpus() && #[trigger] before.caches()[i].free_set().contains(a);
                assert(after.caches()[i].free_set().contains(a));
            }
        }
        assert(after.all_free() =~= before.all_free().remove(a0));
    } else {
        assert forall|a: int| after.all_free().contains(a) <==> before.all_free().contains(a) by {
            if after.all_free().contains(a) {
                let i = choose|i: int| 0 <= i < after.nr_cpus() && #[trigger] after.caches()[i].free_set().contains(a);
                assert(before.caches()[i].free_set().contains(a));
            }
            if before.all_free().contains(a) {
                let i = choose|i: int| 0 <= i < before.nr_cpus() && #[trigger] before.caches()[i].free_set().contains(a);
                assert(after.caches()[i].free_set().contains(a));
            }
        }
        assert(after.all_free() =~= before.all_free());
    }
}

/// What one CPU's `recycle_slot` does to the per-CPU caches, over the sets of
/// slots and of free slots of all CPUs.
pub proof fn lemma_recycle_on_sets(before: ScalableSlabCache, after: ScalableSlabCache, cpu: int, addr: int)
    requires
        before.wf(),
        after.wf(),
        0 <= cpu < before.nr_cpus(),
        after.nr_cpus() == before.nr_cpus(),
        before.slab_on(cpu).owns(addr),
        SinglePageSlabCache::recycle_post(before.caches()[cpu], after.caches()[cpu], addr),
        forall|j: int| 0 <= j < before.nr_cpus() && j != cpu ==> #[trigger] after.caches()[j] == before.caches()[j],
    ensures
        after.all_slots() == before.all_slots(),
        after.all_free().subset_of(after.all_slots()),
        after.all_free() == before.all_free().insert(addr),
{
    SinglePageSlabCache::lemma_recycle_sets(before.caches()[cpu], after.caches()[cpu], addr);
    lemma_slot_sets_same(before, after);
    lemma_free_within_slots(after);
    assert forall|a: int| after.all_free().contains(a) <==> before.all_free().insert(addr).contains(a) by {
        if after.all_free().contains(a) {
            let i = choose|i: int| 0 <= i < after.nr_cpus() && #[trigger] after.caches()[i].free_set().contains(a);
            if a != addr {
                assert(before.caches()[i].free_set().contains(a));
            }
        }
        if before.all_free().contains(a) {
            let i = choose|i: int| 0 <= i < before.nr_cpus() && #[trigger] before.caches()[i].free_set().contains(a);
            assert(after.caches()[i].free_set().contains(a));
        }
        if a == addr {
            assert(after.caches()[cpu].free_set().contains(a));
        }
    }
    assert(after.all_free() =~= before.all_free().insert(addr));
}

proof fn lemma_slot_sets_same(before: ScalableSlabCache, after: ScalableSlabCache)
    requires
        after.nr_cpus() == before.nr_cpus(),
        forall|j: int| 0 <= j < before.nr_cpus() ==> #[trigger] after.caches()[j].slot_set() == before.caches()[j].slot_set(),
    ensures
        after.all_slots() == before.all_slots(),
{
    assert forall|a: int| after.all_slots().contains(a) <==> before.all_slots().contains(a) by {
        if after.all_slots().contains(a) {
            let i = choose|i: int| 0 <= i < after.nr_cpus() && #[trigger] after.caches()[i].slot_set().contains(a);
            assert(before.caches()[i].slot_set().contains(a));
        }
        if before.all_slots().contains(a) {
            let i = choose|i: int| 0 <= i < before.nr_cpus() && #[trigger] before.caches()[i].slot_set().contains(a);
            assert(after.caches()[i].slot_set().contains(a));
        }
    }
    assert(after.all_slots() =~= before.all_slots());
}

/// The free slots of the per-CPU slabs are slots of those slabs.
pub proof fn lemma_free_within_slots(c: ScalableSlabCache)
    requires
        c.wf(),
    ensures
        c.all_free().subset_of(c.all_slots()),
{
    assert forall|a: int| c.all_free().contains(a) implies c.all_slots().contains(a) by {
        let i = choose|i: int| 0 <= i < c.nr_cpus() && #[trigger] c.caches()[i].free_set().contains(a);
        c.caches()[i].lemma_free_is_slot(a);
    }
}

impl SlabSlotAlloc for ScalableSlabCache {
    open spec fn inv(&self) -> bool {
        self.wf()
    }

    open spec fn slot_bytes(&self) -> int {
        self.size()
    }

    open spec fn cpu_count(&self) -> int {
        self.nr_cpus()
    }

    open spec fn slots(&self) -> Set<int> {
        self.all_slots()
    }

    open spec fn available(&self) -> Set<int> {
        self.all_free()
    }

    open spec fn available_to(&self, cpu: int) -> Set<int> {
        self.caches()[cpu].free_set()
    }

    proof fn lemma_available_within_slots(&self) {
        lemma_free_within_slots(*self);
        assert forall|cpu: int| 0 <= cpu < self.cpu_count() implies #[trigger] self.available_to(cpu).subset_of(self.available()) by {
            assert forall|a: int| self.available_to(cpu).contains(a) implies self.available().contains(a) by {
                assert(self.caches()[cpu].free_set().contains(a));
            }
        }
        assert forall|a: int| #[trigger] self.all_slots().contains(a) implies a % self.size() == 0 && a > 0 by {
            let i = choose|i: int| 0 <= i < self.nr_cpus() && #[trigger] self.caches()[i].slot_set().contains(a);
            let slab = self.slab_on(i);
            slab.lemma_wf();
            lemma_slot_aligned(slab.page(), slab.slot_size(), a);
        }
    }

    fn alloc_slot(&mut self, cpu: usize) -> (r: Option<FreeSlabSlot>) {
        let r = self.alloc_on(cpu);
        proof {
            lemma_alloc_on_sets(*old(self), *self, cpu as int, r);
            if old(self).slab_on(cpu as int).free_list().len() == 0 {
                assert(old(self).caches()[cpu as int].free_set() =~= Set::empty());
            }
        }
        r
    }

    fn recycle(&mut self, slot: FreeSlabSlot, cpu: usize) {
        let owner = self.owner_of(slot.as_raw());
        let ghost addr = slot.addr();
        proof {
            assert(!self.caches()[owner as int].free_set().contains(addr) ==> !self.slab_on(owner as int).free_list().contains(addr));
            if self.caches()[owner as int].free_set().contains(addr) {
                assert(self.all_free().contains(addr));
            }
        }
        self.recycle_slot(slot, owner);
        proof {
            lemma_recycle_on_sets(*old(self), *self, owner as int, addr);
        }
    }
}

} // verus!
