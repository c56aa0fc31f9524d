//! The single-lock strategy: one slab per size class, behind one lock shared by
//! the whole machine.
use vstd::prelude::*;

use crate::heap::{is_slot_size, SlabSlotAlloc};
use crate::slab::{is_page_addr, lemma_slot_aligned, FreeSlabSlot, Slab, SlabExt};

verus! {

/// A lock acquisition counter after one more acquisition; it stops at its maximum.
pub open spec fn bumped(n: int) -> int {
    if n < u64::MAX {
        n + 1
    } else {
        n
    }
}

/// A cache of one slab behind a lock. Every operation takes the lock, which the
/// cache counts.
pub struct SinglePageSlabCache {
    slab: Option<Slab>,
    nr_lock_acquisitions: u64,
}

impl SinglePageSlabCache {
    /// The slab, once the cache is initialized.
    pub closed spec fn slab(&self) -> Option<Slab> {
        self.slab
    }

    /// How many times the cache's lock was taken.
    pub closed spec fn lock_count(&self) -> int {
        self.nr_lock_acquisitions as int
    }

    /// The cache's invariant.
    pub open spec fn wf(&self) -> bool {
        self.slab() matches Some(s) ==> s.wf()
    }

    /// Whether the cache is initialized and well-formed.
    pub open spec fn ready(&self) -> bool {
        self.slab() matches Some(s) && s.wf()
    }

    /// The addresses of the slots of the cache's slab.
    pub open spec fn slot_set(&self) -> Set<int> {
        Set::new(|a: int| self.slab()->0.owns(a))
    }

    /// The addresses of the free slots of the cache's slab.
    pub open spec fn free_set(&self) -> Set<int> {
        self.slab()->0.free_list().to_set()
    }

    /// Makes a cache with no slab yet; `init` gives it one.
    pub fn new() -> (r: Self)
        ensures
            r.slab() is None,
            r.lock_count() == 0,
            r.wf(),
    {
        SinglePageSlabCache { slab: None, nr_lock_acquisitions: 0 }
    }

    /// The page of the cache's slab, which identifies the slab.
    pub fn slab_page(&self) -> (r: usize)
        requires
            self.ready(),
        ensures
            r == self.slab()->0.page(),
    {
        match &self.slab {
            Some(slab) => slab.slab_meta().page,
            None => 0,
        }
    }

    /// The extension stored in the cache's slab.
    pub fn slab_extension(&self) -> (r: SlabExt)
        requires
            self.ready(),
        ensures
            r == self.slab()->0.meta().ext,
    {
        match &self.slab {
            Some(slab) => *slab.slab_extension(),
            None => SlabExt::NoExt,
        }
    }

    /// How many times the cache's lock was taken.
    pub fn nr_lock_acquisitions(&self) -> (r: u64)
        ensures
            r == self.lock_count(),
    {
        self.nr_lock_acquisitions
    }

    fn lock(&mut self)
        ensures
            final(self).slab() == old(self).slab(),
            final(self).lock_count() == bumped(old(self).lock_count()),
    {
        if self.nr_lock_acquisitions < u64::MAX {
            self.nr_lock_acquisitions = self.nr_lock_acquisitions + 1;
        }
    }

    /// Gives the cache a fresh slab of slots of `slot_size` bytes on `page`, a
    /// page from the page allocator, with the strategy's `slab_extension`.
    pub fn init(&mut self, page: usize, slot_size: usize, slab_extension: SlabExt)
        requires
            is_page_addr(page as int),
            is_slot_size(slot_size as int),
        ensures
            final(self).ready(),
            final(self).slab()->0.meta().page == page,
            final(self).slab()->0.meta().slot_size == slot_size,
            final(self).slab()->0.meta().ext == slab_extension,
            final(self).slab()->0.used() == 0,
            final(self).lock_count() == bumped(old(self).lock_count()),
    {
        self.lock();
        let slab = Slab::new(Some(page), slot_size, slab_extension);
        self.slab = slab;
    }

    /// What `new_slot` does: under the lock, the first free slot of the slab
    /// is handed out, or none when the slab is full.
    pub open spec fn new_slot_post(before: Self, after: Self, r: Option<FreeSlabSlot>) -> bool {
        let b = before.slab()->0;
        let a = after.slab()->0;
        &&& after.ready()
        &&& after.lock_count() == bumped(before.lock_count())
        &&& a.meta() == b.meta()
        &&& b.free_list().len() == 0 ==> r is None && a == b
        &&& b.free_list().len() > 0 ==> {
            &&& r matches Some(slot)
            &&& slot.addr() == b.free_list()[0]
            &&& slot.slot_size() == b.slot_size()
            &&& slot.is_unlinked()
            &&& a.free_list() == b.free_list().drop_first()
            &&& a.used() == b.used() + 1
        }
    }

    /// What `recycle_slot` does: under the lock, the slot at `addr` goes to the
    /// front of the slab's free list.
    pub open spec fn recycle_post(before: Self, after: Self, addr: int) -> bool {
        let b = before.slab()->0;
        let a = after.slab()->0;
        &&& after.ready()
        &&& after.lock_count() == bumped(before.lock_count())
        &&& a.meta() == b.meta()
        &&& a.free_list() == seq![addr] + b.free_list()
        &&& a.used() == b.used() - 1
    }

    /// Takes a free slot from the slab under the lock; none if the slab is full.
    pub fn new_slot(&mut self) -> (r: Option<FreeSlabSlot>)
        requires
            old(self).ready(),
        ensures
            Self::new_slot_post(*old(self), *final(self), r),
    {
        self.lock();
        let mut slab = self.slab.take().unwrap();
        let r = slab.new_slot();
        self.slab = Some(slab);
        r
    }

    /// Returns a slot of the slab that is in use, under the lock.
    pub fn recycle_slot(&mut self, free_slot: FreeSlabSlot)
        requires
            old(self).ready(),
            old(self).slab()->0.owns(free_slot.addr()),
            free_slot.slot_size() == old(self).slab()->0.slot_size(),
            !old(self).slab()->0.free_list().contains(free_slot.addr()),
        ensures
            Self::recycle_post(*old(self), *final(self), free_slot.addr()),
    {
        self.lock();
        let mut slab = self.slab.take().unwrap();
        slab.recycle_slot(free_slot);
        self.slab = Some(slab);
    }

    /// A free slot of the cache's slab is one of its slots.
    pub proof fn lemma_free_is_slot(&self, a: int)
        requires
            self.ready(),
            self.free_set().contains(a),
        ensures
            self.slot_set().contains(a),
            self.slab()->0.owns(a),
    {
        let fl = self.slab()->0.free_list();
        self.slab()->0.lemma_wf();
        let k = choose|k: int| 0 <= k < fl.len() && fl[k] == a;
    }

    /// What `new_slot` does, over the sets of slots and of free slots.
    pub proof fn lemma_new_slot_sets(before: Self, after: Self, r: Option<FreeSlabSlot>)
        requires
            before.ready(),
            Self::new_slot_post(before, after, r),
        ensures
            after.slot_set() == before.slot_set(),
            after.free_set().subset_of(after.slot_set()),
            r matches Some(slot) ==> {
                &&& before.free_set().contains(slot.addr())
                &&& after.free_set() == before.free_set().remove(slot.addr())
            },
            r is None ==> after.free_set() == before.free_set(),
    {
        let b = before.slab()->0;
        let a = after.slab()->0;
        b.lemma_wf();
        a.lemma_wf();
        assert(after.slot_set() =~= before.slot_set());
        if r is Some {
            let fl = b.free_list();
            assert(fl.contains(fl[0]));
            assert(fl =~= seq![fl[0]] + fl.drop_first());
            vstd::seq_lib::lemma_no_dup_in_concat(seq![fl[0]], fl.drop_first());
            assert(a.free_list().to_set() =~= b.free_list().to_set().remove(fl[0]));
        }
        assert(after.free_set().subset_of(after.slot_set()));
    }

    /// What `recycle_slot` does, over the sets of slots and of free slots.
    pub proof fn lemma_recycle_sets(before: Self, after: Self, addr: int)
        requires
            before.ready(),
            before.slab()->0.owns(addr),
            Self::recycle_post(before, after, addr),
        ensures
            after.slot_set() == before.slot_set(),
            after.free_set().subset_of(after.slot_set()),
            after.free_set() == before.free_set().insert(addr),
    {
        let b = before.slab()->0;
        let a = after.slab()->0;
        b.lemma_wf();
        a.lemma_wf();
        assert(after.slot_set() =~= before.slot_set());
        let fl = b.free_list();
        let nl = a.free_list();
        assert forall|x: int| nl.to_set().contains(x) <==> fl.to_set().insert(addr).contains(x) by {
            if nl.contains(x) {
                let k = choose|k: int| 0 <= k < nl.len() && nl[k] == x;
                if k > 0 {
                    assert(fl[k - 1] == x);
                }
            }
            if fl.contains(x) {
                let k = choose|k: int| 0 <= k < fl.len() && fl[k] == x;
                assert(nl[k + 1] == x);
            }
            if x == addr {
                assert(nl[0] == x);
            }
        }
        assert(nl.to_set() =~= fl.to_set().insert(addr));
        assert(after.free_set().subset_of(after.slot_set()));
    }
}

impl SlabSlotAlloc for SinglePageSlabCache {
    open spec fn inv(&self) -> bool {
        self.ready()
    }

    open spec fn slot_bytes(&self) -> int {
        self.slab()->0.slot_size()
    }

    open spec fn cpu_count(&self) -> int {
        usize::MAX as int
    }

    open spec fn slots(&self) -> Set<int> {
        self.slot_set()
    }

    open spec fn available(&self) -> Set<int> {
        self.free_set()
    }

    open spec fn available_to(&self, cpu: int) -> Set<int> {
        self.free_set()
    }

    proof fn lemma_available_within_slots(&self) {
        assert forall|a: int| self.free_set().contains(a) implies self.slot_set().contains(a) by {
            self.lemma_free_is_slot(a);
        }
        let slab = self.slab()->0;
        slab.lemma_wf();
        assert forall|a: int| #[trigger] self.slot_set().contains(a) implies a % self.slot_bytes() == 0 by {
            lemma_slot_aligned(slab.page(), slab.slot_size(), a);
        }
    }

    fn alloc_slot(&mut self, cpu: usize) -> (r: Option<FreeSlabSlot>) {
        let r = self.new_slot();
        proof {
            Self::lemma_new_slot_sets(*old(self), *self, r);
            if old(self).slab()->0.free_list().len() == 0 {
                assert(old(self).free_set() =~= Set::empty());
            }
        }
        r
    }

    fn recycle(&mut self, slot: FreeSlabSlot, cpu: usize) {
        proof {
            self.slab()->0.lemma_wf();
        }
        let ghost addr = slot.addr();
        self.recycle_slot(slot);
        proof {
            Self::lemma_recycle_sets(*old(self), *self, addr);
        }
    }
}

} // verus!
