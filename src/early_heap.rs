//! The early heap: a fixed, page-aligned memory region that serves allocations
//! before the per-CPU strategies exist. Pages are taken from it one at a time,
//! never given back, and cut into slots of one size class each; freed slots go
//! to a free list per size class.
use vstd::prelude::*;

use crate::heap::{class_of_index, is_slot_size, slot_size_index};
use crate::slab::{
    is_page_addr, is_slot_addr, lemma_aligned_gap, lemma_slot_addr_bounds, lemma_slot_addr_injective, lemma_slot_in_page,
    total_slots,
};
use crate::{NR_SIZE_CLASSES, PAGE_SIZE};

verus! {

/// The number of pages in the early heap's region.
pub const NR_EARLY_HEAP_PAGES: usize = 256;

/// The early heap's memory region, by the address of its first page.
pub struct EarlyHeapPages {
    start: usize,
}

impl EarlyHeapPages {
    /// The address of the region's first page.
    pub closed spec fn start(&self) -> int {
        self.start as int
    }

    /// The region is page-aligned and lies wholly in the address space.
    pub open spec fn wf(&self) -> bool {
        0 < self.start() && self.start() % PAGE_SIZE as int == 0 && self.start() + NR_EARLY_HEAP_PAGES * PAGE_SIZE
            <= usize::MAX
    }

    /// Whether `addr` lies in the region.
    pub open spec fn holds(&self, addr: int) -> bool {
        self.start() <= addr < self.start() + NR_EARLY_HEAP_PAGES * PAGE_SIZE
    }

    /// The region that starts at `start`.
    pub fn new(start: usize) -> (r: Self)
        requires
            start > 0,
            start as int % PAGE_SIZE as int == 0,
            start + NR_EARLY_HEAP_PAGES * PAGE_SIZE <= usize::MAX,
        ensures
            r.start() == start,
            r.wf(),
    {
        EarlyHeapPages { start }
    }
}

/// Whether `ptr` belongs to the early heap's region.
pub fn contains_ptr(pages: &EarlyHeapPages, ptr: usize) -> (r: bool)
    requires
        pages.wf(),
    ensures
        r == pages.holds(ptr as int),
{
    let heap_page_start = pages.start;
    let heap_page_end = heap_page_start + NR_EARLY_HEAP_PAGES * PAGE_SIZE;
    heap_page_start <= ptr && ptr < heap_page_end
}

/// The early heap's allocator.
pub struct EarlyHeapAlloc {
    pages: EarlyHeapPages,
    nr_used_pages: usize,
    /// The addresses of the free slots of each size class, by class index.
    free_lists: Vec<Vec<usize>>,
    /// The size class that each page taken so far was cut into.
    page_classes: Ghost<Seq<int>>,
}

impl EarlyHeapAlloc {
    /// The region.
    pub closed spec fn region(&self) -> EarlyHeapPages {
        self.pages
    }

    /// How many pages of the region were taken.
    pub closed spec fn used_pages(&self) -> int {
        self.nr_used_pages as int
    }

    /// The free slots of size class index `k`, the last one handed out first.
    pub closed spec fn free(&self, k: int) -> Seq<usize> {
        self.free_lists@[k]@
    }

    /// The addresses of all the slots cut so far for size class index `k`.
    pub closed spec fn carved(&self, k: int) -> Set<int> {
        let start = self.pages.start as int;
        Set::new(
            |a: int|
                exists|p: int|
                    0 <= p < self.nr_used_pages && #[trigger] self.page_classes@[p] == class_of_index(k)
                        && is_slot_addr(start + p * PAGE_SIZE, class_of_index(k), a),
        )
    }

    /// Whether `addr` was handed out for size class index `k` and not freed since.
    pub open spec fn is_live(&self, k: int, addr: int) -> bool {
        self.carved(k).contains(addr) && !self.free(k).contains(addr as usize)
    }

    /// The invariant: each free list holds distinct slots cut for its class.
    pub closed spec fn wf(&self) -> bool {
        &&& self.pages.wf()
        &&& self.nr_used_pages <= NR_EARLY_HEAP_PAGES
        &&& self.page_classes@.len() == self.nr_used_pages
        &&& self.free_lists@.len() == NR_SIZE_CLASSES
        &&& forall|k: int|
            #![trigger self.free_lists@[k]]
            0 <= k < NR_SIZE_CLASSES ==> {
                &&& self.free(k).no_duplicates()
                &&& forall|j: int| 0 <= j < self.free(k).len() ==> self.carved(k).contains(#[trigger] self.free(k)[j] as int)
            }
    }

    /// The region of a well-formed early heap is well-formed, and at most all of
    /// its pages are taken.
    pub proof fn lemma_wf(&self)
        requires
            self.wf(),
        ensures
            self.region().wf(),
            0 <= self.used_pages() <= NR_EARLY_HEAP_PAGES,
    {
    }

    /// Every slot cut so far lies in the region, aligned to its size class.
    pub proof fn lemma_carved_in_region(&self, k: int, a: int)
        requires
            self.wf(),
            0 <= k < NR_SIZE_CLASSES,
            self.carved(k).contains(a),
        ensures
            self.region().holds(a),
            a % class_of_index(k) == 0,
            a + class_of_index(k) <= self.region().start() + NR_EARLY_HEAP_PAGES * PAGE_SIZE,
    {
        let start = self.pages.start as int;
        let p = choose|p: int|
            0 <= p < self.nr_used_pages && #[trigger] self.page_classes@[p] == class_of_index(k)
                && is_slot_addr(start + p * PAGE_SIZE, class_of_index(k), a);
        lemma_slot_in_page(start + p * PAGE_SIZE, class_of_index(k), a);
    }

    /// Distinct slots cut so far do not overlap, whatever their classes: a page
    /// is cut for one class only.
    pub proof fn lemma_carved_disjoint(&self, j: int, k: int, a: int, b: int)
        requires
            self.wf(),
            0 <= j < NR_SIZE_CLASSES,
            0 <= k < NR_SIZE_CLASSES,
            self.carved(j).contains(a),
            self.carved(k).contains(b),
            j != k || a != b,
        ensures
            a + class_of_index(j) <= b || b + class_of_index(k) <= a,
    {
        let start = self.pages.start as int;
        let pa = choose|p: int|
            0 <= p < self.nr_used_pages && #[trigger] self.page_classes@[p] == class_of_index(j)
                && is_slot_addr(start + p * PAGE_SIZE, class_of_index(j), a);
        let pb = choose|p: int|
            0 <= p < self.nr_used_pages && #[trigger] self.page_classes@[p] == class_of_index(k)
                && is_slot_addr(start + p * PAGE_SIZE, class_of_index(k), b);
        lemma_slot_in_page(start + pa * PAGE_SIZE, class_of_index(j), a);
        lemma_slot_in_page(start + pb * PAGE_SIZE, class_of_index(k), b);
        if pa == pb {
            assert(j == k);
            if a < b {
                lemma_aligned_gap(a, b, class_of_index(j));
            } else {
                lemma_aligned_gap(b, a, class_of_index(k));
            }
        }
    }

    /// The number of free slots of `slot_size` bytes.
    pub fn free_count(&self, slot_size: usize) -> (r: usize)
        requires
            self.wf(),
            is_slot_size(slot_size as int),
        ensures
            r == self.free(crate::heap::class_index(slot_size as int)).len(),
    {
        let k = slot_size_index(slot_size);
        self.free_lists[k].len()
    }

    /// The number of pages of the region taken so far.
    pub fn nr_used_pages(&self) -> (r: usize)
        ensures
            r == self.used_pages(),
    {
        self.nr_used_pages
    }

    /// The region.
    pub fn region_ref(&self) -> (r: &EarlyHeapPages)
        ensures
            *r == self.region(),
    {
        &self.pages
    }

    /// A slot cut so far lies below the pages not yet taken.
    proof fn lemma_carved_below_unused(&self, k: int, a: int)
        requires
            self.wf(),
            self.carved(k).contains(a),
        ensures
            self.pages.start + 0 <= a < self.pages.start + self.nr_used_pages * PAGE_SIZE,
    {
    }

    /// Hands out a slot of `slot_size` bytes: the last freed one of its class,
    /// else the first slot of a page newly taken from the region and cut into
    /// slots of that class, the others going to the free list; none once the
    /// region is used up.
    pub fn alloc_slot(&mut self, slot_size: usize) -> (r: Option<usize>)
        requires
            old(self).wf(),
            is_slot_size(slot_size as int),
        ensures
            final(self).wf(),
            final(self).region() == old(self).region(),
            ({
                let k = crate::heap::class_index(slot_size as int);
                let fk = old(self).free(k);
                let page = old(self).region().start() + old(self).used_pages() * PAGE_SIZE;
                let n = total_slots(slot_size as int);
                &&& forall|j: int|
                    0 <= j < NR_SIZE_CLASSES && j != k ==> #[trigger] final(self).free(j) == old(self).free(j)
                        && final(self).carved(j) == old(self).carved(j)
                &&& forall|j: int, x: int| 0 <= j < NR_SIZE_CLASSES && #[trigger] old(self).is_live(j, x) ==> final(self).is_live(j, x)
                &&& fk.len() > 0 ==> {
                    &&& r == Some(fk.last())
                    &&& final(self).free(k) == fk.drop_last()
                    &&& final(self).carved(k) == old(self).carved(k)
                    &&& final(self).used_pages() == old(self).used_pages()
                }
                &&& fk.len() == 0 && old(self).used_pages() < NR_EARLY_HEAP_PAGES ==> {
                    &&& r == Some(page as usize)
                    &&& final(self).used_pages() == old(self).used_pages() + 1
                    &&& final(self).free(k) == Seq::new((n - 1) as nat, |j: int| (page + (n - 1 - j) * slot_size) as usize)
                }
                &&& fk.len() == 0 && old(self).used_pages() == NR_EARLY_HEAP_PAGES ==> r is None && *final(self) == *old(self)
                &&& r matches Some(a) ==> final(self).is_live(k, a as int) && final(self).region().holds(a as int)
                    && !old(self).is_live(k, a as int)
            }),
    {
        let k = slot_size_index(slot_size);
        let ghost kk = k as int;
        if self.free_lists[k].len() == 0 && self.nr_used_pages == NR_EARLY_HEAP_PAGES {
            return None;
        }
        let mut list = self.free_lists.remove(k);
        if list.len() > 0 {
            let ghost fk = list@;
            let a = list.pop().unwrap();
            self.free_lists.insert(k, list);
            proof {
                assert(self.free_lists@ =~= old(self).free_lists@.update(kk, list));
                assert(fk =~= list@.push(a));
                assert(fk.contains(a));
                assert forall|j: int, x: int| 0 <= j < NR_SIZE_CLASSES && #[trigger] old(self).is_live(j, x) implies self.is_live(j, x) by {
                    if j == kk && list@.contains(x as usize) {
                        let m = choose|m: int| 0 <= m < list@.len() && list@[m] == x as usize;
                        assert(fk[m] == x as usize);
                    }
                }
                assert(self.carved(kk) =~= old(self).carved(kk));
                assert forall|j: int| 0 <= j < list@.len() implies list@[j] != a by {
                    assert(fk[j] == list@[j]);
                }
                assert(self.carved(kk).contains(a as int));
            }
            return Some(a);
        }
        let page = self.pages.start + self.nr_used_pages * PAGE_SIZE;
        let ghost used = self.nr_used_pages as int;
        self.nr_used_pages = self.nr_used_pages + 1;
        self.page_classes = Ghost(self.page_classes@.push(slot_size as int));
        let n = PAGE_SIZE / slot_size;
        let mut i: usize = n;
        while i > 1
            invariant
                1 <= i <= n,
                n == total_slots(slot_size as int),
                is_slot_size(slot_size as int),
                page == self.pages.start + used * PAGE_SIZE,
                self.pages.wf(),
                used < NR_EARLY_HEAP_PAGES,
                list@.len() == n - i,
                forall|j: int| 0 <= j < n - i ==> #[trigger] list@[j] == page + (n - 1 - j) * slot_size,
            decreases i,
        {
            i = i - 1;
            proof {
                lemma_slot_addr_bounds(page as int, slot_size as int, i as int);
            }
            list.push(page + i * slot_size);
        }
        self.free_lists.insert(k, list);
        proof {
            assert(self.free_lists@ =~= old(self).free_lists@.update(kk, list));
            let start = self.pages.start as int;
            assert forall|j: int| 0 <= j < NR_SIZE_CLASSES && j != kk implies #[trigger] self.carved(j) == old(self).carved(j) by {
                assert forall|a: int| self.carved(j).contains(a) <==> old(self).carved(j).contains(a) by {
                    if self.carved(j).contains(a) {
                        let p = choose|p: int|
                            0 <= p < self.nr_used_pages && #[trigger] self.page_classes@[p] == class_of_index(j)
                                && is_slot_addr(start + p * PAGE_SIZE, class_of_index(j), a);
                        assert(p != used);
                        assert(old(self).page_classes@[p] == class_of_index(j));
                    }
                    if old(self).carved(j).contains(a) {
                        let p = choose|p: int|
                            0 <= p < old(self).nr_used_pages && #[trigger] old(self).page_classes@[p] == class_of_index(j)
                                && is_slot_addr(start + p * PAGE_SIZE, class_of_index(j), a);
                        assert(self.page_classes@[p] == class_of_index(j));
                    }
                }
                assert(self.carved(j) =~= old(self).carved(j));
            }
            assert forall|a: int| old(self).carved(kk).contains(a) implies self.carved(kk).contains(a) by {
                let p = choose|p: int|
                    0 <= p < old(self).nr_used_pages && #[trigger] old(self).page_classes@[p] == class_of_index(kk)
                        && is_slot_addr(start + p * PAGE_SIZE, class_of_index(kk), a);
                assert(self.page_classes@[p] == class_of_index(kk));
            }
            assert forall|j: int| 0 <= j < list@.len() implies self.carved(kk).contains(#[trigger] list@[j] as int)
                && list@[j] as int >= page && list@[j] != page by {
                lemma_slot_addr_bounds(page as int, slot_size as int, n - 1 - j);
                assert(self.page_classes@[used] == class_of_index(kk));
                if list@[j] == page {
                    lemma_slot_addr_injective(page as int, slot_size as int, n - 1 - j, 0);
                }
            }
            assert forall|a: int, b: int| 0 <= a < list@.len() && 0 <= b < list@.len() && a != b implies list@[a] != list@[b] by {
                if list@[a] == list@[b] {
                    lemma_slot_addr_injective(page as int, slot_size as int, n - 1 - a, n - 1 - b);
                }
            }
            assert forall|j: int, x: int| 0 <= j < NR_SIZE_CLASSES && #[trigger] old(self).is_live(j, x) implies self.is_live(j, x) by {
                if j == kk {
                    old(self).lemma_carved_below_unused(j, x);
                    if list@.contains(x as usize) {
                        let m = choose|m: int| 0 <= m < list@.len() && list@[m] == x as usize;
                        assert(list@[m] as int >= page);
                    }
                    assert(self.carved(kk).contains(x));
                }
            }
            lemma_slot_addr_bounds(page as int, slot_size as int, 0);
            assert(self.page_classes@[used] == class_of_index(kk));
            assert(self.carved(kk).contains(page as int));
            assert(list@ =~= Seq::new((n - 1) as nat, |j: int| (page + (n - 1 - j) * slot_size) as usize));
        }
        Some(page)
    }

    /// Puts a slot handed out for `slot_size` and not freed since back on its
    /// class's free list.
    pub fn dealloc(&mut self, slot_ptr: usize, slot_size: usize)
        requires
            old(self).wf(),
            is_slot_size(slot_size as int),
            old(self).is_live(crate::heap::class_index(slot_size as int), slot_ptr as int),
        ensures
            final(self).wf(),
            final(self).region() == old(self).region(),
            final(self).used_pages() == old(self).used_pages(),
            final(self).free(crate::heap::class_index(slot_size as int)) == old(self).free(
                crate::heap::class_index(slot_size as int),
            ).push(slot_ptr),
            forall|j: int| 0 <= j < NR_SIZE_CLASSES ==> #[trigger] final(self).carved(j) == old(self).carved(j),
            forall|j: int|
                0 <= j < NR_SIZE_CLASSES && j != crate::heap::class_index(slot_size as int) ==> #[trigger] final(self).free(j)
                    == old(self).free(j),
    {
        let k = slot_size_index(slot_size);
        let mut list = self.free_lists.remove(k);
        list.push(slot_ptr);
        self.free_lists.insert(k, list);
        proof {
            assert(self.free_lists@ =~= old(self).free_lists@.update(k as int, list));
            assert forall|j: int| 0 <= j < NR_SIZE_CLASSES implies #[trigger] self.carved(j) == old(self).carved(j) by {
                assert(self.carved(j) =~= old(self).carved(j));
            }
            let fk = old(self).free(k as int);
            assert forall|a: int, b: int| 0 <= a < list@.len() && 0 <= b < list@.len() && a != b implies list@[a] != list@[b] by {
                if b == fk.len() {
                    assert(fk.contains(list@[a]));
                } else if a == fk.len() {
                    assert(fk.contains(list@[b]));
                }
            }
        }
    }

    /// Makes the allocator of the region `pages`, with no page taken yet.
    pub fn new(pages: EarlyHeapPages) -> (r: Self)
        requires
            pages.wf(),
        ensures
            r.wf(),
            r.region() == pages,
            r.used_pages() == 0,
            forall|k: int| 0 <= k < NR_SIZE_CLASSES ==> #[trigger] r.free(k).len() == 0,
    {
        let mut free_lists: Vec<Vec<usize>> = Vec::new();
        let mut i: usize = 0;
        while i < NR_SIZE_CLASSES
            invariant
                i <= NR_SIZE_CLASSES,
                free_lists@.len() == i,
                forall|k: int| 0 <= k < i ==> #[trigger] free_lists@[k]@.len() == 0,
            decreases NR_SIZE_CLASSES - i,
        {
            free_lists.push(Vec::new());
            i = i + 1;
        }
        EarlyHeapAlloc { pages, nr_used_pages: 0, free_lists, page_classes: Ghost(Seq::empty()) }
    }
}

} // verus!
