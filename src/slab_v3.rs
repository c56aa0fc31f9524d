//! The lockless-fast-path strategy: per-CPU slabs as in the per-CPU strategy,
//! plus, on each CPU, an unsynchronized list of freed slots that is consulted
//! before the lock. A slot allocated and freed on the same CPU never goes
//! through the lock.
use vstd::prelude::*;

use crate::heap::{is_slot_size, SlabSlotAlloc};
use crate::slab::{chain_of, chain_of_sized, is_page_addr, FreeSlabSlot};
use crate::slab_v1::SinglePageSlabCache;
use crate::slab_v2::{lemma_alloc_on_sets, lemma_free_within_slots, lemma_recycle_on_sets, ScalableSlabCache};

verus! {

/// A list of free slots of one size, threaded through the slots' own links.
pub struct FreeSlabSlotList {
    head: Option<FreeSlabSlot>,
    slot_size: usize,
}

impl FreeSlabSlotList {
    /// The addresses of the slots in the list, from the first one popped.
    pub closed spec fn items(&self) -> Seq<int> {
        chain_of(self.head)
    }

    /// The size of the slots the list holds.
    pub closed spec fn slot_size(&self) -> int {
        self.slot_size as int
    }

    /// The list's invariant: every slot in it has the list's slot size.
    pub closed spec fn wf(&self) -> bool {
        chain_of_sized(self.head, self.slot_size as int)
    }

    /// Makes an empty list of slots of `slot_size` bytes.
    pub fn new(slot_size: usize) -> (r: Self)
        ensures
            r.wf(),
            r.items() == Seq::<int>::empty(),
            r.slot_size() == slot_size,
    {
        FreeSlabSlotList { head: None, slot_size }
    }

    /// Puts `slot` at the front of the list.
    pub fn push(&mut self, slot: FreeSlabSlot)
        requires
            old(self).wf(),
            slot.is_unlinked(),
            slot.slot_size() == old(self).slot_size(),
        ensures
            final(self).wf(),
            final(self).slot_size() == old(self).slot_size(),
            final(self).items() == seq![slot.addr()] + old(self).items(),
    {
        let mut slot = slot;
        let ghost s0 = slot;
        proof {
            s0.lemma_chain();
        }
        let r = slot.take_next_slot();
        assert(r is None) by {
            if r is Some {
                r->0.lemma_chain();
            }
        }
        match self.head.take() {
            None => {
                proof {
                    assert(slot.chain_sized(self.slot_size as int));
                }
                self.head = Some(slot);
            },
            Some(h) => {
                let ghost hv = h;
                let _ = slot.replace_next_slot(h);
                proof {
                    assert(slot.chain_sized(self.slot_size as int));
                }
                self.head = Some(slot);
            },
        }
    }

    /// Takes the first slot off the list; none if the list is empty.
    pub fn pop(&mut self) -> (r: Option<FreeSlabSlot>)
        requires
            old(self).wf(),
        ensures
            final(self).wf(),
            final(self).slot_size() == old(self).slot_size(),
            old(self).items().len() == 0 ==> r is None && *final(self) == *old(self),
            old(self).items().len() > 0 ==> {
                &&& r matches Some(slot)
                &&& slot.addr() == old(self).items()[0]
                &&& slot.slot_size() == old(self).slot_size()
                &&& slot.is_unlinked()
                &&& final(self).items() == old(self).items().drop_first()
            },
    {
        match self.head.take() {
            None => None,
            Some(h) => {
                let mut h = h;
                let ghost h0 = h;
                proof {
                    assert(h0.chain_sized(self.slot_size as int));
                    h0.lemma_chain();
                }
                self.head = h.take_next_slot();
                proof {
                    assert(h0.chain() == seq![h0.addr()] + chain_of(self.head));
                    assert(self.items() =~= old(self).items().drop_first());
                }
                Some(h)
            },
        }
    }
}

/// Per-CPU locked slabs, each CPU with its own unsynchronized list of freed
/// slots that it consults before its lock.
pub struct LocklessSlabCache {
    local_slab_caches: ScalableSlabCache,
    local_free_lists: Vec<FreeSlabSlotList>,
}

impl LocklessSlabCache {
    /// The per-CPU locked slabs.
    pub closed spec fn slab_caches(&self) -> ScalableSlabCache {
        self.local_slab_caches
    }

    /// The local free list of each CPU, indexed by CPU.
    pub closed spec fn lists(&self) -> Seq<FreeSlabSlotList> {
        self.local_free_lists@
    }

    /// The number of CPUs.
    pub open spec fn nr_cpus(&self) -> int {
        self.slab_caches().nr_cpus()
    }

    /// The addresses in the local free list of `cpu`.
    pub open spec fn local_items(&self, cpu: int) -> Seq<int> {
        self.lists()[cpu].items()
    }

    /// How many times the lock of the slab of `cpu` was taken.
    pub open spec fn lock_count(&self, cpu: int) -> int {
        self.slab_caches().caches()[cpu].lock_count()
    }

    /// The invariant: each CPU's local list holds distinct slots of that CPU's
    /// slab that are not on the slab's own free list.
    pub open spec fn wf(&self) -> bool {
        &&& self.slab_caches().wf()
        &&& self.lists().len() == self.nr_cpus()
        &&& forall|i: int|
            #![trigger self.lists()[i]]
            0 <= i < self.nr_cpus() ==> {
                &&& self.lists()[i].wf()
                &&& self.lists()[i].slot_size() == self.slab_caches().size()
                &&& self.lists()[i].items().no_duplicates()
                &&& forall|k: int|
                    #![trigger self.lists()[i].items()[k]]
                    0 <= k < self.lists()[i].items().len() ==> {
                        &&& self.slab_caches().slab_on(i).owns(self.lists()[i].items()[k])
                        &&& !self.slab_caches().slab_on(i).free_list().contains(self.lists()[i].items()[k])
                    }
            }
    }

    /// The addresses in all CPUs' local free lists.
    pub open spec fn local_free(&self) -> Set<int> {
        Set::new(|a: int| exists|i: int| 0 <= i < self.nr_cpus() && #[trigger] self.lists()[i].items().contains(a))
    }

    /// Makes a cache for slots of `slot_size` bytes with no CPU yet; `init`
    /// gives every CPU its slab and its empty local list.
    pub fn new(slot_size: usize) -> (r: Self)
        requires
            is_slot_size(slot_size as int),
        ensures
            r.wf(),
            r.nr_cpus() == 0,
            r.slab_caches().size() == slot_size,
    {
        LocklessSlabCache { local_slab_caches: ScalableSlabCache::new(slot_size), local_free_lists: Vec::new() }
    }

    /// Gives CPU `i` a fresh slab on `pages[i]` and an empty local list, for
    /// every CPU; there are as many CPUs as pages. Runs once, before any
    /// allocation.
    pub fn init(&mut self, pages: Vec<usize>)
        requires
            old(self).wf(),
            old(self).nr_cpus() == 0,
            pages@.no_duplicates(),
            forall|i: int| 0 <= i < pages@.len() ==> is_page_addr(#[trigger] pages@[i] as int),
        ensures
            final(self).wf(),
            final(self).slab_caches().size() == old(self).slab_caches().size(),
            final(self).nr_cpus() == pages@.len(),
            forall|i: int|
                0 <= i < pages@.len() ==> (#[trigger] final(self).slab_caches().slab_on(i)).page() == pages@[i]
                    && final(self).slab_caches().slab_on(i).used() == 0 && final(self).local_items(i).len() == 0,
    {
        let n = pages.len();
        let ghost pg = pages@;
        self.local_slab_caches.init(pages);
        let slot_size = self.local_slab_caches.slot_size();
        self.local_free_lists = Vec::new();
        let mut i: usize = 0;
        while i < n
            invariant
                self.slab_caches().wf(),
                self.nr_cpus() == n,
                slot_size == self.slab_caches().size(),
                i <= n,
                pg.len() == n,
                forall|k: int|
                    0 <= k < n ==> (#[trigger] self.slab_caches().slab_on(k)).page() == pg[k]
                        && self.slab_caches().slab_on(k).used() == 0,
                self.lists().len() == i,
                forall|k: int|
                    #![trigger self.lists()[k]]
                    0 <= k < i ==> self.lists()[k].wf() && self.lists()[k].slot_size() == slot_size
                        && self.lists()[k].items().len() == 0,
            decreases n - i,
        {
            self.local_free_lists.push(FreeSlabSlotList::new(slot_size));
            i = i + 1;
        }
    }

    /// How many times the lock of the slab of `cpu` was taken.
    pub fn lock_acquisitions(&self, cpu: usize) -> (r: u64)
        requires
            self.wf(),
            cpu < self.nr_cpus(),
        ensures
            r == self.lock_count(cpu as int),
    {
        self.local_slab_caches.lock_acquisitions(cpu)
    }

    /// What `alloc_on` does for `cpu`, handing out `r`.
    pub open spec fn alloc_post(before: Self, after: Self, cpu: int, r: Option<FreeSlabSlot>) -> bool {
        &&& after.wf()
        &&& after.nr_cpus() == before.nr_cpus()
        &&& after.slab_caches().size() == before.slab_caches().size()
        &&& before.local_items(cpu).len() > 0 ==> {
            &&& r matches Some(slot)
            &&& slot.addr() == before.local_items(cpu)[0]
            &&& slot.slot_size() == before.slab_caches().size()
            &&& slot.is_unlinked()
            &&& after.local_items(cpu) == before.local_items(cpu).drop_first()
            &&& after.slab_caches() == before.slab_caches()
            &&& forall|j: int| 0 <= j < before.nr_cpus() && j != cpu ==> #[trigger] after.lists()[j] == before.lists()[j]
        }
        &&& before.local_items(cpu).len() == 0 ==> {
            &&& after.lists() == before.lists()
            &&& SinglePageSlabCache::new_slot_post(
                before.slab_caches().caches()[cpu],
                after.slab_caches().caches()[cpu],
                r,
            )
            &&& forall|j: int|
                0 <= j < before.nr_cpus() && j != cpu ==> #[trigger] after.slab_caches().caches()[j]
                    == before.slab_caches().caches()[j]
        }
    }

    /// What `recycle_slot` does with the slot at `addr`, owned by `owner` and
    /// freed on `cpu`.
    pub open spec fn recycle_post(before: Self, after: Self, addr: int, owner: int, cpu: int) -> bool {
        &&& after.wf()
        &&& after.nr_cpus() == before.nr_cpus()
        &&& after.slab_caches().size() == before.slab_caches().size()
        &&& owner == cpu ==> {
            &&& after.local_items(cpu) == seq![addr] + before.local_items(cpu)
            &&& after.slab_caches() == before.slab_caches()
            &&& forall|j: int| 0 <= j < before.nr_cpus() && j != cpu ==> #[trigger] after.lists()[j] == before.lists()[j]
        }
        &&& owner != cpu ==> {
            &&& after.lists() == before.lists()
            &&& SinglePageSlabCache::recycle_post(
                before.slab_caches().caches()[owner],
                after.slab_caches().caches()[owner],
                addr,
            )
            &&& forall|j: int|
                0 <= j < before.nr_cpus() && j != owner ==> #[trigger] after.slab_caches().caches()[j]
                    == before.slab_caches().caches()[j]
        }
    }

    /// Hands out a slot on behalf of `cpu`: the first one of its local list
    /// without taking any lock, or else one of its locked slab.
    pub fn alloc_on(&mut self, cpu: usize) -> (r: Option<FreeSlabSlot>)
        requires
            old(self).wf(),
            cpu < old(self).nr_cpus(),
        ensures
            Self::alloc_post(*old(self), *final(self), cpu as int, r),
    {
        let mut list = self.local_free_lists.remove(cpu);
        let free_slot = list.pop();
        self.local_free_lists.insert(cpu, list);
        proof {
            assert(self.lists() =~= old(self).lists().update(cpu as int, list));
        }
        if free_slot.is_some() {
            proof {
                let it = old(self).local_items(cpu as int);
                assert forall|k: int| 0 <= k < list.items().len() implies list.items()[k] == it[k + 1] by {}
            }
            return free_slot;
        }
        let r = self.local_slab_caches.alloc_on(cpu);
        proof {
            let before = old(self).slab_caches();
            let after = self.slab_caches();
            assert forall|i: int| #![trigger self.lists()[i]] 0 <= i < self.nr_cpus() implies
                forall|k: int|
                    #![trigger self.lists()[i].items()[k]]
                    0 <= k < self.lists()[i].items().len() ==> {
                        &&& after.slab_on(i).owns(self.lists()[i].items()[k])
                        &&& !after.slab_on(i).free_list().contains(self.lists()[i].items()[k])
                    } by {
                if i == cpu {
                    assert(self.lists()[i].items().len() == 0);
                }
            }
        }
        proof {
            assert(self.wf());
            assert(self.lists() == old(self).lists());
        }
        r
    }

    /// Takes back, on `cpu`, a slot in use owned by `owner_cpu`: onto the local
    /// list of `cpu` without any lock when `cpu` owns the slot, else to the
    /// owner's slab under the owner's lock.
    pub fn recycle_slot(&mut self, free_slot: FreeSlabSlot, owner_cpu: usize, cpu: usize)
        requires
            old(self).wf(),
            owner_cpu < old(self).nr_cpus(),
            cpu < old(self).nr_cpus(),
            old(self).slab_caches().slab_on(owner_cpu as int).owns(free_slot.addr()),
            !old(self).slab_caches().slab_on(owner_cpu as int).free_list().contains(free_slot.addr()),
            !old(self).local_items(owner_cpu as int).contains(free_slot.addr()),
            free_slot.slot_size() == old(self).slab_caches().size(),
            free_slot.is_unlinked(),
        ensures
            Self::recycle_post(*old(self), *final(self), free_slot.addr(), owner_cpu as int, cpu as int),
    {
        let ghost addr = free_slot.addr();
        if owner_cpu == cpu {
            let mut list = self.local_free_lists.remove(cpu);
            list.push(free_slot);
            self.local_free_lists.insert(cpu, list);
            proof {
                assert(self.lists() =~= old(self).lists().update(cpu as int, list));
                let it = old(self).local_items(cpu as int);
                let nt = list.items();
                assert(nt == seq![addr] + it);
                vstd::seq_lib::lemma_no_dup_in_concat(seq![addr], it);
                assert forall|k: int| #![trigger nt[k]] 0 <= k < nt.len() implies {
                    &&& self.slab_caches().slab_on(cpu as int).owns(nt[k])
                    &&& !self.slab_caches().slab_on(cpu as int).free_list().contains(nt[k])
                } by {
                    if k > 0 {
                        assert(nt[k] == it[k - 1]);
                    }
                }
            }
            return;
        }
        self.local_slab_caches.recycle_slot(free_slot, owner_cpu);
        proof {
            let before = old(self).slab_caches();
            let after = self.slab_caches();
            assert forall|i: int| #![trigger self.lists()[i]] 0 <= i < self.nr_cpus() implies
                forall|k: int|
                    #![trigger self.lists()[i].items()[k]]
                    0 <= k < self.lists()[i].items().len() ==> {
                        &&& after.slab_on(i).owns(self.lists()[i].items()[k])
                        &&& !after.slab_on(i).free_list().contains(self.lists()[i].items()[k])
                    } by {
                if i == owner_cpu {
                    let it = self.lists()[i].items();
                    assert forall|k: int| 0 <= k < it.len() implies !after.slab_on(i).free_list().contains(#[trigger] it[k]) by {
                        assert(it[k] != addr);
                        if after.slab_on(i).free_list().contains(it[k]) {
                            let m = choose|m: int| 0 <= m < after.slab_on(i).free_list().len() && after.slab_on(i).free_list()[m] == it[k];
                            assert(before.slab_on(i).free_list()[m - 1] == it[k]);
                        }
                    }
                }
            }
        }
    }
}

impl LocklessSlabCache {
    /// A slot in the local list of `i` is a slot of the slab of `i`, and not
    /// on that slab's free list.
    proof fn lemma_local_item(&self, i: int, a: int)
        requires
            self.wf(),
            0 <= i < self.nr_cpus(),
            self.local_items(i).contains(a),
        ensures
            self.slab_caches().slab_on(i).owns(a),
            !self.slab_caches().slab_on(i).free_list().contains(a),
            self.slab_caches().caches()[i].slot_set().contains(a),
            !self.slab_caches().caches()[i].free_set().contains(a),
    {
        let it = self.lists()[i].items();
        let k = choose|k: int| 0 <= k < it.len() && it[k] == a;
        assert(self.slab_caches().slab_on(i).owns(it[k]));
    }

    /// The slots in the local lists are slots of the cache, and none of them
    /// is free in a slab.
    proof fn lemma_local_sets(&self)
        requires
            self.wf(),
        ensures
            self.local_free().subset_of(self.slab_caches().all_slots()),
            self.local_free().disjoint(self.slab_caches().all_free()),
            self.slab_caches().all_free().union(self.local_free()).subset_of(self.slab_caches().all_slots()),
    {
        let sc = self.slab_caches();
        lemma_free_within_slots(sc);
        assert forall|a: int| self.local_free().contains(a) implies sc.all_slots().contains(a)
            && !sc.all_free().contains(a) by {
            let i = choose|i: int| 0 <= i < self.nr_cpus() && #[trigger] self.lists()[i].items().contains(a);
            self.lemma_local_item(i, a);
            if sc.all_free().contains(a) {
                let j = choose|j: int| 0 <= j < sc.nr_cpus() && #[trigger] sc.caches()[j].free_set().contains(a);
                sc.caches()[j].lemma_free_is_slot(a);
                sc.lemma_owner_unique(i, j, a);
            }
        }
    }
}

proof fn lemma_lockless_alloc_sets(before: LocklessSlabCache, after: LocklessSlabCache, cpu: int, r: Option<FreeSlabSlot>)
    requires
        before.wf(),
        0 <= cpu < before.nr_cpus(),
        LocklessSlabCache::alloc_post(before, after, cpu, r),
    ensures
        after.slab_caches().all_slots() == before.slab_caches().all_slots(),
        after.slab_caches().all_free().union(after.local_free()).subset_of(after.slab_caches().all_slots()),
        r matches Some(slot) ==> {
            &&& before.slab_caches().all_free().union(before.local_free()).contains(slot.addr())
            &&& after.slab_caches().all_free().union(after.local_free()) == before.slab_caches().all_free().union(
                before.local_free(),
            ).remove(slot.addr())
        },
        r is None ==> after.slab_caches().all_free().union(after.local_free()) == before.slab_caches().all_free().union(
            before.local_free(),
        ),
{
    let sb = before.slab_caches();
    let sa = after.slab_caches();
    before.lemma_local_sets();
    after.lemma_local_sets();
    if before.local_items(cpu).len() > 0 {
        let it = before.local_items(cpu);
        let a0 = it[0];
        assert(it.contains(a0));
        assert(before.local_free().contains(a0));
        assert forall|x: int| after.local_free().contains(x) <==> before.local_free().remove(a0).contains(x) by {
            if after.local_free().contains(x) {
                let i = choose|i: int| 0 <= i < after.nr_cpus() && #[trigger] after.lists()[i].items().contains(x);
                if i == cpu {
                    let k = choose|k: int| 0 <= k < after.local_items(cpu).len() && after.local_items(cpu)[k] == x;
                    assert(it[k + 1] == x);
                    assert(before.lists()[i].items().contains(x));
                } else {
                    assert(before.lists()[i].items().contains(x));
                    if x == a0 {
                        before.lemma_local_item(i, x);
                        before.lemma_local_item(cpu, x);
                        sb.lemma_owner_unique(i, cpu, x);
                    }
                }
            }
            if before.local_free().remove(a0).contains(x) {
                let i = choose|i: int| 0 <= i < before.nr_cpus() && #[trigger] before.lists()[i].items().contains(x);
                if i == cpu {
                    let k = choose|k: int| 0 <= k < it.len() && it[k] == x;
                    assert(k != 0);
                    assert(after.local_items(cpu)[k - 1] == x);
                    assert(after.lists()[i].items().contains(x));
                } else {
                    assert(after.lists()[i].items().contains(x));
                }
            }
        }
        assert(after.local_free() =~= before.local_free().remove(a0));
        assert(sa.all_free().union(after.local_free()) =~= sb.all_free().union(before.local_free()).remove(a0));
    } else {
        assert(after.local_free() =~= before.local_free());
        lemma_alloc_on_sets(sb, sa, cpu, r);
        if r is Some {
            let a0 = r->0.addr();
            assert(!before.local_free().contains(a0));
            assert(sa.all_free().union(after.local_free()) =~= sb.all_free().union(before.local_free()).remove(a0));
        } else {
            assert(sa.all_free().union(after.local_free()) =~= sb.all_free().union(before.local_free()));
        }
    }
}

/// A slot handed out from the local list of `cpu` and freed again on `cpu`
/// takes no lock: every CPU's lock count and slab are as they were, and the
/// slot is back at the front of the local list.
pub proof fn lemma_same_cpu_cycle_takes_no_lock(
    c0: LocklessSlabCache,
    c1: LocklessSlabCache,
    c2: LocklessSlabCache,
    cpu: int,
    slot: FreeSlabSlot,
)
    requires
        c0.wf(),
        0 <= cpu < c0.nr_cpus(),
        c0.local_items(cpu).len() > 0,
        LocklessSlabCache::alloc_post(c0, c1, cpu, Some(slot)),
        LocklessSlabCache::recycle_post(c1, c2, slot.addr(), cpu, cpu),
    ensures
        c2.slab_caches() == c0.slab_caches(),
        forall|i: int| 0 <= i < c0.nr_cpus() ==> #[trigger] c2.lock_count(i) == c0.lock_count(i),
        c2.local_items(cpu) == c0.local_items(cpu),
{
    let it = c0.local_items(cpu);
    assert(c2.local_items(cpu) =~= it);
}

/// A slot freed on a CPU other than its owner goes under the owner's lock to
/// the owner's slab, at the front of its free list; the freeing CPU's lock,
/// slab and local list, and every local list, are untouched.
pub proof fn lemma_cross_cpu_free_takes_owner_lock(
    c1: LocklessSlabCache,
    c2: LocklessSlabCache,
    addr: int,
    owner: int,
    cpu: int,
)
    requires
        c1.wf(),
        0 <= owner < c1.nr_cpus(),
        0 <= cpu < c1.nr_cpus(),
        owner != cpu,
        LocklessSlabCache::recycle_post(c1, c2, addr, owner, cpu),
    ensures
        c2.lock_count(owner) == crate::slab_v1::bumped(c1.lock_count(owner)),
        c2.slab_caches().slab_on(owner).free_list()[0] == addr,
        c2.slab_caches().slab_on(owner).free_list().drop_first() == c1.slab_caches().slab_on(owner).free_list(),
        c2.lock_count(cpu) == c1.lock_count(cpu),
        c2.slab_caches().slab_on(cpu) == c1.slab_caches().slab_on(cpu),
        c2.lists() == c1.lists(),
{
    let nl = c2.slab_caches().slab_on(owner).free_list();
    assert(nl.drop_first() =~= c1.slab_caches().slab_on(owner).free_list());
}

impl SlabSlotAlloc for LocklessSlabCache {
    open spec fn inv(&self) -> bool {
        self.wf()
    }

    open spec fn slot_bytes(&self) -> int {
        self.slab_caches().size()
    }

    open spec fn cpu_count(&self) -> int {
        self.nr_cpus()
    }

    open spec fn slots(&self) -> Set<int> {
        self.slab_caches().all_slots()
    }

    open spec fn available(&self) -> Set<int> {
        self.slab_caches().all_free().union(self.local_free())
    }

    open spec fn available_to(&self, cpu: int) -> Set<int> {
        self.local_items(cpu).to_set().union(self.slab_caches().caches()[cpu].free_set())
    }

    proof fn lemma_available_within_slots(&self) {
        self.lemma_local_sets();
        self.slab_caches().lemma_available_within_slots();
        assert forall|cpu: int| 0 <= cpu < self.cpu_count() implies #[trigger] self.available_to(cpu).subset_of(self.available()) by {
            assert forall|a: int| self.available_to(cpu).contains(a) implies self.available().contains(a) by {
                if self.local_items(cpu).to_set().contains(a) {
                    assert(self.lists()[cpu].items().contains(a));
                } else {
                    assert(self.slab_caches().caches()[cpu].free_set().contains(a));
                }
            }
        }
    }

    fn alloc_slot(&mut self, cpu: usize) -> (r: Option<FreeSlabSlot>) {
        let r = self.alloc_on(cpu);
        proof {
            lemma_lockless_alloc_sets(*old(self), *self, cpu as int, r);
            if old(self).local_items(cpu as int).len() == 0 && old(self).slab_caches().slab_on(cpu as int).free_list().len() == 0 {
                assert(old(self).local_items(cpu as int).to_set() =~= Set::empty());
                assert(old(self).slab_caches().caches()[cpu as int].free_set() =~= Set::empty());
                assert(old(self).available_to(cpu as int) =~= Set::empty());
            }
        }
        r
    }

    fn recycle(&mut self, slot: FreeSlabSlot, cpu: usize) {
        let ghost addr = slot.addr();
        let owner = self.local_slab_caches.owner_of(slot.as_raw());
        proof {
            let sc = self.slab_caches();
            if sc.slab_on(owner as int).free_list().contains(addr) {
                assert(sc.caches()[owner as int].free_set().contains(addr));
                assert(sc.all_free().contains(addr));
            }
            if self.local_items(owner as int).contains(addr) {
                assert(self.local_free().contains(addr));
            }
        }
        self.recycle_slot(slot, owner, cpu);
        proof {
            let sb = old(self).slab_caches();
            let sa = self.slab_caches();
            old(self).lemma_local_sets();
            self.lemma_local_sets();
            if owner == cpu {
                let it = old(self).local_items(cpu as int);
                assert forall|x: int| self.local_free().contains(x) <==> old(self).local_free().insert(addr).contains(x) by {
                    if self.local_free().contains(x) {
                        let i = choose|i: int| 0 <= i < self.nr_cpus() && #[trigger] self.lists()[i].items().contains(x);
                        if i == cpu && x != addr {
                            let k = choose|k: int| 0 <= k < self.local_items(i).len() && self.local_items(i)[k] == x;
                            assert(it[k - 1] == x);
                            assert(old(self).lists()[i].items().contains(x));
                        } else if x != addr {
                            assert(old(self).lists()[i].items().contains(x));
                        }
                    }
                    if old(self).local_free().contains(x) {
                        let i = choose|i: int| 0 <= i < old(self).nr_cpus() && #[trigger] old(self).lists()[i].items().contains(x);
                        if i == cpu {
                            let k = choose|k: int| 0 <= k < it.len() && it[k] == x;
                            assert(self.local_items(i)[k + 1] == x);
                        }
                        assert(self.lists()[i].items().contains(x));
                    }
                    if x == addr {
                        assert(self.local_items(cpu as int)[0] == x);
                        assert(self.lists()[cpu as int].items().contains(x));
                    }
                }
                assert(self.local_free() =~= old(self).local_free().insert(addr));
                assert(self.available() =~= old(self).available().insert(addr));
            } else {
                assert(self.local_free() =~= old(self).local_free());
                lemma_recycle_on_sets(sb, sa, owner as int, addr);
                assert(self.available() =~= old(self).available().insert(addr));
            }
        }
    }
}

} // verus!
