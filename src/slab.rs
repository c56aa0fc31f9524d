//! A slab is one page divided into fixed-size slots, each of which can hold one
//! object no larger than the slot size.
//!
//! The free slots of a slab form a singly-linked list threaded through the
//! slots themselves: while a slot is free, its storage holds the index of the
//! next free slot.
use vstd::prelude::*;

use crate::heap::is_slot_size;
use crate::PAGE_SIZE;

verus! {

/// The extension that a slot-allocation strategy stores in the metadata of
/// each of its slabs, tagged by strategy.
#[derive(PartialEq, Eq, Structural, Clone, Copy, Debug)]
pub enum SlabExt {
    /// The single-lock strategy keeps nothing.
    NoExt,
    /// The per-CPU strategies record the CPU that owns the slab.
    OwnerCpu(usize),
}

/// The metadata of a slab: which page it owns, its slot size and its extension.
#[derive(PartialEq, Eq, Structural, Clone, Copy, Debug)]
pub struct SlabMeta {
    pub page: usize,
    pub slot_size: usize,
    pub ext: SlabExt,
}

impl SlabMeta {
    /// The extension stored by the strategy that owns the slab.
    pub fn extension(&self) -> (r: &SlabExt)
        ensures
            *r == self.ext,
    {
        &self.ext
    }

    /// The extension as a tagged value, for a caller that does not know which
    /// strategy owns the slab: the owner CPU where one is recorded.
    pub fn extension_as_any(&self) -> (r: Option<usize>)
        ensures
            r == (match self.ext {
                SlabExt::NoExt => None,
                SlabExt::OwnerCpu(c) => Some(c),
            }),
    {
        match self.ext {
            SlabExt::NoExt => None,
            SlabExt::OwnerCpu(c) => Some(c),
        }
    }
}

/// Whether `page` is the address of a page that lies wholly in the address space.
pub open spec fn is_page_addr(page: int) -> bool {
    page % PAGE_SIZE as int == 0 && 0 < page && page + PAGE_SIZE <= usize::MAX
}

/// The address of slot `i` of a slab on `page` with slots of `slot_size` bytes.
pub open spec fn slot_addr(page: int, slot_size: int, i: int) -> int {
    page + i * slot_size
}

/// Whether `addr` is the address of one of the slots of a slab on `page` with
/// slots of `slot_size` bytes.
pub open spec fn is_slot_addr(page: int, slot_size: int, addr: int) -> bool {
    page <= addr < page + PAGE_SIZE && (addr - page) % slot_size == 0
}

/// The number of slots in a page of slots of `slot_size` bytes.
pub open spec fn total_slots(slot_size: int) -> int {
    PAGE_SIZE as int / slot_size
}

proof fn lemma_slot_index(page: int, slot_size: int, addr: int)
    requires
        is_slot_size(slot_size),
        is_slot_addr(page, slot_size, addr),
    ensures
        0 <= (addr - page) / slot_size < total_slots(slot_size),
        slot_addr(page, slot_size, (addr - page) / slot_size) == addr,
{
    let d = addr - page;
    assert(0 <= d < 4096);
    assert(d == slot_size * (d / slot_size) + d % slot_size) by (nonlinear_arith)
        requires slot_size > 0;
    assert(0 <= d / slot_size < 4096int / slot_size) by (nonlinear_arith)
        requires 0 <= d < 4096, is_slot_size(slot_size);
}

/// Slot `i` of a page lies in the page, at a multiple of the slot size.
pub proof fn lemma_slot_addr_bounds(page: int, slot_size: int, i: int)
    requires
        is_slot_size(slot_size),
        0 <= i < total_slots(slot_size),
    ensures
        is_slot_addr(page, slot_size, slot_addr(page, slot_size, i)),
        (slot_addr(page, slot_size, i) - page) / slot_size == i,
{
    assert(0 <= i * slot_size < 4096 && (i * slot_size) % slot_size == 0
        && (i * slot_size) / slot_size == i) by (nonlinear_arith)
        requires
            is_slot_size(slot_size),
            0 <= i < 4096int / slot_size,
    ;
}

/// A multiple of a multiple of `align` is a multiple of `align`.
pub proof fn lemma_multiple_of_multiple(a: int, c: int, align: int)
    requires
        c > 0,
        align > 0,
        a % c == 0,
        c % align == 0,
    ensures
        a % align == 0,
{
    vstd::arithmetic::div_mod::lemma_fundamental_div_mod(a, c);
    vstd::arithmetic::div_mod::lemma_fundamental_div_mod(c, align);
    let q1 = a / c;
    let q2 = c / align;
    vstd::arithmetic::mul::lemma_mul_is_associative(align, q2, q1);
    assert(a == align * (q2 * q1));
    assert(align * (q2 * q1) == (q2 * q1) * align) by (nonlinear_arith);
    vstd::arithmetic::div_mod::lemma_mod_multiples_basic(q2 * q1, align);
}

/// Two distinct multiples of `c` lie at least `c` apart.
pub proof fn lemma_aligned_gap(x: int, y: int, c: int)
    requires
        c > 0,
        x % c == 0,
        y % c == 0,
        x < y,
    ensures
        x + c <= y,
{
    vstd::arithmetic::div_mod::lemma_fundamental_div_mod(x, c);
    vstd::arithmetic::div_mod::lemma_fundamental_div_mod(y, c);
    let p = x / c;
    let q = y / c;
    assert(x == c * p && y == c * q);
    assert(q >= p + 1) by (nonlinear_arith)
        requires
            x == c * p,
            y == c * q,
            x < y,
            c > 0,
    ;
    assert(c * q >= c * p + c) by (nonlinear_arith)
        requires
            q >= p + 1,
            c > 0,
    ;
}

/// A slot of a slab on a page ends within the page.
pub proof fn lemma_slot_in_page(page: int, slot_size: int, a: int)
    requires
        is_slot_size(slot_size),
        is_page_addr(page),
        is_slot_addr(page, slot_size, a),
    ensures
        a % slot_size == 0,
        a + slot_size <= page + PAGE_SIZE,
{
    lemma_slot_aligned(page, slot_size, a);
    assert(4096int % slot_size == 0) by (nonlinear_arith)
        requires
            is_slot_size(slot_size),
    ;
    lemma_multiple_of_multiple(page + 4096, 4096, slot_size);
    lemma_aligned_gap(a, page + 4096, slot_size);
}

/// Every slot of a slab on a page is aligned to the slot size.
pub proof fn lemma_slot_aligned(page: int, slot_size: int, a: int)
    requires
        is_slot_size(slot_size),
        is_page_addr(page),
        is_slot_addr(page, slot_size, a),
    ensures
        a % slot_size == 0,
{
    assert(4096int % slot_size == 0) by (nonlinear_arith)
        requires
            is_slot_size(slot_size),
    ;
    lemma_multiple_of_multiple(page, 4096, slot_size);
    vstd::arithmetic::div_mod::lemma_fundamental_div_mod(page, slot_size);
    vstd::arithmetic::div_mod::lemma_fundamental_div_mod(a - page, slot_size);
    let x = page / slot_size;
    let y = (a - page) / slot_size;
    vstd::arithmetic::mul::lemma_mul_is_distributive_add(slot_size, x, y);
    assert(a == slot_size * (x + y));
    assert(slot_size * (x + y) == (x + y) * slot_size) by (nonlinear_arith);
    vstd::arithmetic::div_mod::lemma_mod_multiples_basic(x + y, slot_size);
}

/// Two pages that hold one address are the same page.
pub proof fn lemma_same_page(p: int, q: int, a: int)
    requires
        is_page_addr(p),
        is_page_addr(q),
        p <= a < p + PAGE_SIZE,
        q <= a < q + PAGE_SIZE,
    ensures
        p == q,
{
    assert(p == 4096 * (p / 4096));
    assert(q == 4096 * (q / 4096));
}

/// Distinct slots of a page have distinct addresses.
pub proof fn lemma_slot_addr_injective(page: int, slot_size: int, i: int, j: int)
    requires
        slot_size > 0,
        slot_addr(page, slot_size, i) == slot_addr(page, slot_size, j),
    ensures
        i == j,
{
    assert(i * slot_size == j * slot_size ==> i == j) by (nonlinear_arith)
        requires slot_size > 0;
}

/// A handle to the storage of one slot, owned by whoever holds it.
///
/// While the slot is free, its storage holds the link to the next free slot of
/// a list of slots.
pub struct FreeSlabSlot {
    addr: usize,
    slot_size: usize,
    next: Option<Box<FreeSlabSlot>>,
}

impl FreeSlabSlot {
    /// A handle is to a slot of a size class, at a non-zero address aligned to
    /// the slot size.
    #[verifier::type_invariant]
    closed spec fn inv(&self) -> bool {
        is_slot_size(self.slot_size as int) && self.addr > 0 && self.addr as int % self.slot_size as int == 0
    }

    /// The address of the slot.
    pub closed spec fn addr(&self) -> int {
        self.addr as int
    }

    /// The size of the slot, in bytes.
    pub closed spec fn slot_size(&self) -> int {
        self.slot_size as int
    }

    /// The addresses of this slot and of the slots linked after it.
    pub closed spec fn chain(&self) -> Seq<int>
        decreases self,
    {
        match self.next {
            None => seq![self.addr as int],
            Some(n) => seq![self.addr as int] + n.chain(),
        }
    }

    /// Whether this slot and the slots linked after it all have `size` bytes.
    pub closed spec fn chain_sized(&self, size: int) -> bool
        decreases self,
    {
        self.slot_size as int == size && match self.next {
            None => true,
            Some(n) => n.chain_sized(size),
        }
    }

    /// Whether the slot is linked to no next slot.
    pub closed spec fn is_unlinked(&self) -> bool {
        self.next is None
    }

    /// A chain holds at least the slot itself, and a slot linked to no next
    /// slot is a chain of one.
    pub proof fn lemma_chain(&self)
        ensures
            self.chain().len() >= 1,
            self.chain()[0] == self.addr(),
            self.is_unlinked() <==> self.chain().len() == 1,
        decreases self,
    {
        match self.next {
            None => {},
            Some(n) => {
                n.lemma_chain();
            },
        }
    }

    /// Makes a handle to the free slot at `addr` of `slot_size` bytes, which is
    /// aligned to its size.
    pub fn new(addr: usize, slot_size: usize) -> (r: Self)
        requires
            is_slot_size(slot_size as int),
            addr > 0,
            addr as int % slot_size as int == 0,
        ensures
            r.addr() == addr,
            r.slot_size() == slot_size,
            r.is_unlinked(),
            r.chain() == seq![addr as int],
            r.chain_sized(slot_size as int),
    {
        FreeSlabSlot { addr, slot_size, next: None }
    }

    /// Makes a handle to the free slot at `addr` of `slot_size` bytes, the
    /// inverse of `into_raw`.
    pub fn from_raw(addr: usize, slot_size: usize) -> (r: Self)
        requires
            is_slot_size(slot_size as int),
            addr > 0,
            addr as int % slot_size as int == 0,
        ensures
            r.addr() == addr,
            r.slot_size() == slot_size,
            r.is_unlinked(),
            r.chain() == seq![addr as int],
            r.chain_sized(slot_size as int),
    {
        FreeSlabSlot { addr, slot_size, next: None }
    }

    /// Gives up the handle and returns the slot's address.
    pub fn into_raw(self) -> (r: usize)
        ensures
            r == self.addr(),
            r > 0,
            r as int % self.slot_size() == 0,
            is_slot_size(self.slot_size()),
    {
        proof {
            use_type_invariant(&self);
        }
        self.addr
    }

    /// The slot's address.
    pub fn as_raw(&self) -> (r: usize)
        ensures
            r == self.addr(),
            r > 0,
            r as int % self.slot_size() == 0,
            is_slot_size(self.slot_size()),
    {
        proof {
            use_type_invariant(self);
        }
        self.addr
    }

    /// The slot's size in bytes.
    pub fn size(&self) -> (r: usize)
        ensures
            r == self.slot_size(),
    {
        self.slot_size
    }

    /// The page address of the slab that the slot belongs to, which identifies
    /// the slab's metadata.
    pub fn slab_page(&self) -> (r: usize)
        ensures
            r == self.addr() - self.addr() % PAGE_SIZE as int,
    {
        self.addr - self.addr % PAGE_SIZE
    }

    /// Moves `obj` into the slot, which becomes its uniquely-owned storage.
    pub fn into_box<T>(self, obj: T) -> (r: SlabBox<T>)
        ensures
            r == spec_into_box(self, obj),
    {
        SlabBox { slot: self, value: obj }
    }

    /// Ends the life of a boxed object and recovers its slot.
    pub fn from_box<T>(boxed: SlabBox<T>) -> (r: Self)
        ensures
            r == boxed.slot(),
    {
        boxed.slot
    }

    /// Builds a shared object in the slot: the strong and weak counts are one,
    /// followed by the payload `data`.
    pub fn into_arc<T>(self, data: T) -> (r: SlabArc<T>)
        ensures
            r == spec_into_arc(self, data),
    {
        SlabArc { strong: 1, weak: 1, slot: self, data }
    }

    /// Recovers the slot of a shared object whose last reference is released.
    pub fn from_arc<T>(arc: SlabArc<T>) -> (r: Self)
        requires
            arc.strong_count() == 1,
        ensures
            r == arc.slot(),
    {
        arc.slot
    }

    /// Unlinks the next slot from this one and returns it.
    pub fn take_next_slot(&mut self) -> (r: Option<FreeSlabSlot>)
        ensures
            final(self).addr() == old(self).addr(),
            final(self).slot_size() == old(self).slot_size(),
            final(self).is_unlinked(),
            final(self).chain() == seq![old(self).addr()],
            forall|z: int| #[trigger] final(self).chain_sized(z) == (old(self).slot_size() == z),
            old(self).chain() == seq![old(self).addr()] + chain_of(r),
            forall|z: int| #[trigger] old(self).chain_sized(z) == (old(self).slot_size() == z && chain_of_sized(r, z)),
    {
        proof {
            use_type_invariant(&*self);
        }
        let mut unlinked = FreeSlabSlot { addr: self.addr, slot_size: self.slot_size, next: None };
        std::mem::swap(self, &mut unlinked);
        let FreeSlabSlot { addr: _, slot_size: _, next } = unlinked;
        match next {
            None => None,
            Some(b) => Some(*b),
        }
    }

    /// Links `new` after this slot and returns the slot that was linked before.
    pub fn replace_next_slot(&mut self, new: FreeSlabSlot) -> (r: Option<FreeSlabSlot>)
        ensures
            final(self).addr() == old(self).addr(),
            final(self).slot_size() == old(self).slot_size(),
            final(self).chain() == seq![old(self).addr()] + new.chain(),
            old(self).chain() == seq![old(self).addr()] + chain_of(r),
            forall|z: int| #[trigger] final(self).chain_sized(z) == (old(self).slot_size() == z && new.chain_sized(z)),
            forall|z: int| #[trigger] old(self).chain_sized(z) == (old(self).slot_size() == z && chain_of_sized(r, z)),
    {
        proof {
            use_type_invariant(&*self);
        }
        let mut linked = FreeSlabSlot { addr: self.addr, slot_size: self.slot_size, next: Some(Box::new(new)) };
        std::mem::swap(self, &mut linked);
        let FreeSlabSlot { addr: _, slot_size: _, next } = linked;
        match next {
            None => None,
            Some(b) => Some(*b),
        }
    }

    /// The slot linked after this one.
    pub fn next_slot(&self) -> (r: Option<&FreeSlabSlot>)
        ensures
            self.chain() == seq![self.addr()] + (match r {
                None => Seq::empty(),
                Some(n) => n.chain(),
            }),
    {
        match &self.next {
            None => None,
            Some(b) => Some(&**b),
        }
    }
}

/// The addresses of a chain of slots, empty for none.
pub open spec fn chain_of(s: Option<FreeSlabSlot>) -> Seq<int> {
    match s {
        None => Seq::empty(),
        Some(n) => n.chain(),
    }
}

/// Whether every slot of a chain of slots, if any, has `size` bytes.
pub open spec fn chain_of_sized(s: Option<FreeSlabSlot>, size: int) -> bool {
    match s {
        None => true,
        Some(n) => n.chain_sized(size),
    }
}

/// An object that owns the slot it is stored in.
pub struct SlabBox<T> {
    slot: FreeSlabSlot,
    value: T,
}

impl<T> SlabBox<T> {
    /// The slot that holds the object.
    pub closed spec fn slot(&self) -> FreeSlabSlot {
        self.slot
    }

    /// The object.
    pub closed spec fn value(&self) -> T {
        self.value
    }

    /// Reads the object.
    pub fn get(&self) -> (r: &T)
        ensures
            *r == self.value(),
    {
        &self.value
    }

    /// The address of the object, which is the address of its slot.
    pub fn as_raw(&self) -> (r: usize)
        ensures
            r == self.slot().addr(),
    {
        self.slot.addr
    }
}

/// The boxed object that `into_box` makes of `slot` and `obj`.
pub closed spec fn spec_into_box<T>(slot: FreeSlabSlot, obj: T) -> SlabBox<T> {
    SlabBox { slot, value: obj }
}

/// A reference-counted object built in a slot. The slot holds, in this order,
/// the strong count, the weak count and the payload. When the last strong
/// reference is released the slot goes back to the slab it came from.
pub struct SlabArc<T> {
    strong: usize,
    weak: usize,
    slot: FreeSlabSlot,
    data: T,
}

impl<T> SlabArc<T> {
    /// The number of strong references.
    pub closed spec fn strong_count(&self) -> int {
        self.strong as int
    }

    /// The number of weak references, plus one held by the strong ones together.
    pub closed spec fn weak_count(&self) -> int {
        self.weak as int
    }

    /// The slot that holds the control block and the payload.
    pub closed spec fn slot(&self) -> FreeSlabSlot {
        self.slot
    }

    /// The payload.
    pub closed spec fn data(&self) -> T {
        self.data
    }

    /// Reads the payload.
    pub fn get(&self) -> (r: &T)
        ensures
            *r == self.data(),
    {
        &self.data
    }

    /// The number of strong references.
    pub fn strong(&self) -> (r: usize)
        ensures
            r == self.strong_count(),
    {
        self.strong
    }

    /// Takes one more strong reference.
    pub fn acquire(&mut self)
        requires
            old(self).strong_count() < usize::MAX,
        ensures
            final(self).strong_count() == old(self).strong_count() + 1,
            final(self).weak_count() == old(self).weak_count(),
            final(self).slot() == old(self).slot(),
            final(self).data() == old(self).data(),
    {
        self.strong = self.strong + 1;
    }

    /// Releases one strong reference that is not the last.
    pub fn release(&mut self)
        requires
            old(self).strong_count() > 1,
        ensures
            final(self).strong_count() == old(self).strong_count() - 1,
            final(self).weak_count() == old(self).weak_count(),
            final(self).slot() == old(self).slot(),
            final(self).data() == old(self).data(),
    {
        self.strong = self.strong - 1;
    }
}

/// The shared object that `into_arc` makes of `slot` and `data`.
pub closed spec fn spec_into_arc<T>(slot: FreeSlabSlot, data: T) -> SlabArc<T> {
    SlabArc { strong: 1, weak: 1, slot, data }
}

/// Storing a value in a slot and recovering the slot gives back the same slot,
/// and the value read in between is the value stored; for boxed and for shared
/// objects alike.
pub proof fn lemma_slot_object_round_trip<T>(slot: FreeSlabSlot, obj: T)
    ensures
        spec_into_box(slot, obj).slot() == slot,
        spec_into_box(slot, obj).value() == obj,
        spec_into_arc(slot, obj).slot() == slot,
        spec_into_arc(slot, obj).data() == obj,
        spec_into_arc(slot, obj).strong_count() == 1,
        spec_into_arc(slot, obj).weak_count() == 1,
{
}


/// One page of slots of one size, with the list of its free slots and the
/// count of slots in use.
pub struct Slab {
    meta: SlabMeta,
    /// For each slot, while it is free: the index of the next free slot, or the
    /// number of slots at the end of the list.
    next: Vec<usize>,
    /// The index of the first free slot, or the number of slots if none is free.
    head: usize,
    nr_used: usize,
    /// The indices of the free slots, in list order.
    free_seq: Ghost<Seq<int>>,
}

impl Slab {
    /// The slab's metadata.
    pub closed spec fn meta(&self) -> SlabMeta {
        self.meta
    }

    /// The address of the slab's page, which identifies the slab.
    pub open spec fn page(&self) -> int {
        self.meta().page as int
    }

    /// The size of each slot, in bytes.
    pub open spec fn slot_size(&self) -> int {
        self.meta().slot_size as int
    }

    /// The number of slots: the page size divided by the slot size.
    pub open spec fn total(&self) -> int {
        total_slots(self.slot_size())
    }

    /// Whether `addr` is the address of one of the slab's slots.
    pub open spec fn owns(&self, addr: int) -> bool {
        is_slot_addr(self.page(), self.slot_size(), addr)
    }

    /// The number of slots in use.
    pub closed spec fn used(&self) -> int {
        self.nr_used as int
    }

    /// The addresses of the free slots, in the order in which they are handed out.
    pub closed spec fn free_list(&self) -> Seq<int> {
        let page = self.meta.page as int;
        let size = self.meta.slot_size as int;
        self.free_seq@.map_values(|i: int| slot_addr(page, size, i))
    }

    /// The slab's invariant.
    pub closed spec fn wf(&self) -> bool {
        let size = self.meta.slot_size as int;
        let n = total_slots(size);
        let fs = self.free_seq@;
        &&& is_slot_size(size)
        &&& is_page_addr(self.meta.page as int)
        &&& self.next@.len() == n
        &&& fs.no_duplicates()
        &&& forall|k: int| 0 <= k < fs.len() ==> 0 <= #[trigger] fs[k] < n
        &&& self.nr_used + fs.len() == n
        &&& fs.len() == 0 ==> self.head == n
        &&& fs.len() > 0 ==> self.head == fs[0]
        &&& forall|k: int| 0 <= k < fs.len() - 1 ==> self.next@[#[trigger] fs[k]] == fs[k + 1]
        &&& fs.len() > 0 ==> self.next@[fs[fs.len() - 1]] == n
    }

    /// In a well-formed slab the slots in use and the free slots add up to all
    /// slots; the free slots are distinct slots of the slab.
    pub proof fn lemma_wf(&self)
        requires
            self.wf(),
        ensures
            self.used() + self.free_list().len() == self.total(),
            0 <= self.used() <= self.total(),
            self.free_list().no_duplicates(),
            forall|k: int| 0 <= k < self.free_list().len() ==> self.owns(#[trigger] self.free_list()[k]),
            is_slot_size(self.slot_size()),
            is_page_addr(self.page()),
    {
        let fl = self.free_list();
        let fs = self.free_seq@;
        assert forall|k: int| 0 <= k < fl.len() implies self.owns(#[trigger] fl[k]) by {
            lemma_slot_addr_bounds(self.page(), self.slot_size(), fs[k]);
        }
        assert forall|a: int, b: int| 0 <= a < fl.len() && 0 <= b < fl.len() && a != b implies fl[a] != fl[b] by {
            if fl[a] == fl[b] {
                lemma_slot_addr_injective(self.page(), self.slot_size(), fs[a], fs[b]);
            }
        }
    }

    /// A slab with no slot in use has all of its slots, page size divided by
    /// slot size of them, on its free list: exactly that many `new_slot` calls
    /// hand out a slot before one hands out none.
    pub proof fn lemma_fresh_slab_capacity(&self)
        requires
            self.wf(),
            self.used() == 0,
        ensures
            self.free_list().len() == self.total(),
            self.total() == PAGE_SIZE as int / self.slot_size(),
    {
        self.lemma_wf();
    }

    /// Makes a slab of slots of `slot_size` bytes on `page`, a page handed out by
    /// the page allocator, with every slot free. There is no slab when the page
    /// allocator had no page.
    pub fn new(page: Option<usize>, slot_size: usize, extension: SlabExt) -> (r: Option<Slab>)
        requires
            is_slot_size(slot_size as int),
            page matches Some(p) ==> is_page_addr(p as int),
        ensures
            page is None <==> r is None,
            r matches Some(slab) ==> {
                &&& slab.wf()
                &&& slab.meta() == (SlabMeta { page: page->0, slot_size, ext: extension })
                &&& slab.used() == 0
                &&& slab.free_list() == Seq::new(
                    total_slots(slot_size as int) as nat,
                    |i: int| slot_addr(page->0 as int, slot_size as int, i),
                )
            },
    {
        let page = match page {
            None => {
                return None;
            },
            Some(p) => p,
        };
        let n: usize = PAGE_SIZE / slot_size;
        let mut next: Vec<usize> = Vec::new();
        let mut i: usize = 0;
        while i < n
            invariant
                n == total_slots(slot_size as int),
                is_slot_size(slot_size as int),
                i <= n,
                next@.len() == i,
                forall|j: int| 0 <= j < i ==> next@[j] == j + 1,
            decreases n - i,
        {
            next.push(i + 1);
            i = i + 1;
        }
        let ghost fs = Seq::new(n as nat, |j: int| j);
        let slab = Slab {
            meta: SlabMeta { page, slot_size, ext: extension },
            next,
            head: 0,
            nr_used: 0,
            free_seq: Ghost(fs),
        };
        proof {
            assert(slab.free_list() =~= Seq::new(
                total_slots(slot_size as int) as nat,
                |i: int| slot_addr(page as int, slot_size as int, i),
            ));
        }
        Some(slab)
    }

    /// Takes the first free slot, which is then in use; none if no slot is free.
    /// Callers hold whatever lock the slab's strategy requires.
    pub fn new_slot(&mut self) -> (r: Option<FreeSlabSlot>)
        requires
            old(self).wf(),
        ensures
            final(self).wf(),
            final(self).meta() == old(self).meta(),
            r is Some <==> old(self).used() < old(self).total(),
            old(self).free_list().len() == 0 ==> r is None && *final(self) == *old(self),
            old(self).free_list().len() > 0 ==> {
                &&& r matches Some(slot)
                &&& slot.addr() == old(self).free_list()[0]
                &&& slot.slot_size() == old(self).slot_size()
                &&& slot.is_unlinked()
                &&& final(self).free_list() == old(self).free_list().drop_first()
                &&& final(self).used() == old(self).used() + 1
            },
    {
        if self.head == self.next.len() {
            return None;
        }
        let ghost fs = self.free_seq@;
        let i = self.head;
        proof {
            lemma_slot_addr_bounds(self.meta.page as int, self.meta.slot_size as int, i as int);
            lemma_slot_aligned(
                self.meta.page as int,
                self.meta.slot_size as int,
                slot_addr(self.meta.page as int, self.meta.slot_size as int, i as int),
            );
        }
        self.head = self.next[i];
        self.nr_used = self.nr_used + 1;
        self.free_seq = Ghost(fs.drop_first());
        let slot = FreeSlabSlot::from_raw(self.meta.page + i * self.meta.slot_size, self.meta.slot_size);
        proof {
            assert(self.free_list() =~= old(self).free_list().drop_first());
        }
        Some(slot)
    }

    /// Returns a slot of this slab that is in use to the front of the free list.
    pub fn recycle_slot(&mut self, free_slot: FreeSlabSlot)
        requires
            old(self).wf(),
            old(self).owns(free_slot.addr()),
            free_slot.slot_size() == old(self).slot_size(),
            !old(self).free_list().contains(free_slot.addr()),
        ensures
            final(self).wf(),
            final(self).meta() == old(self).meta(),
            final(self).free_list() == seq![free_slot.addr()] + old(self).free_list(),
            final(self).used() == old(self).used() - 1,
    {
        let ghost fs = self.free_seq@;
        let ghost n = total_slots(self.meta.slot_size as int);
        let addr = free_slot.into_raw();
        proof {
            lemma_slot_index(self.meta.page as int, self.meta.slot_size as int, addr as int);
        }
        let i = (addr - self.meta.page) / self.meta.slot_size;
        proof {
            assert(!fs.contains(i as int)) by {
                if fs.contains(i as int) {
                    let k = choose|k: int| 0 <= k < fs.len() && fs[k] == i as int;
                    assert(old(self).free_list()[k] == addr as int);
                }
            }
            let range = vstd::set_lib::set_int_range(0, n);
            vstd::set_lib::lemma_int_range(0, n);
            assert(fs.to_set().subset_of(range));
            fs.to_set().lemma_subset_not_in_lt(range, i as int);
            fs.unique_seq_to_set();
        }
        self.next.set(i, self.head);
        self.head = i;
        self.nr_used = self.nr_used - 1;
        let ghost fs2 = seq![i as int] + fs;
        self.free_seq = Ghost(fs2);
        proof {
            assert forall|k: int| 0 <= k < fs2.len() - 1 implies self.next@[#[trigger] fs2[k]] == fs2[k + 1] by {
                if k > 0 {
                    assert(fs2[k] == fs[k - 1]);
                }
            }
            assert(self.free_list() =~= seq![addr as int] + old(self).free_list());
        }
    }

    /// The number of slots: the page size divided by the slot size.
    pub fn nr_total_slots(&self) -> (r: usize)
        requires
            self.wf(),
        ensures
            r == self.total(),
    {
        PAGE_SIZE / self.meta.slot_size
    }

    /// Whether some slot is free.
    pub fn has_unused_slots(&self) -> (r: bool)
        requires
            self.wf(),
        ensures
            r == (self.free_list().len() > 0),
    {
        self.head != self.next.len()
    }

    /// The number of slots in use.
    pub fn nr_used_slots(&self) -> (r: usize)
        ensures
            r == self.used(),
    {
        self.nr_used
    }

    /// The slab's metadata.
    pub fn slab_meta(&self) -> (r: &SlabMeta)
        ensures
            *r == self.meta(),
    {
        &self.meta
    }

    /// The extension stored by the strategy that owns the slab.
    pub fn slab_extension(&self) -> (r: &SlabExt)
        ensures
            *r == self.meta().ext,
    {
        &self.meta.ext
    }

    /// Destroys a slab none of whose slots is in use, and hands back its page.
    pub fn dealloc(self) -> (r: usize)
        requires
            self.used() == 0,
        ensures
            r == self.page(),
    {
        self.meta.page
    }
}

} // verus!
