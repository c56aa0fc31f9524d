use slab_heap::heap::{determine_slot_size, does_slot_size_match_obj_size, slot_size_index, SlabSlotAlloc};
use slab_heap::slab::{FreeSlabSlot, Slab, SlabExt};
use slab_heap::slab_v1::SinglePageSlabCache;
use slab_heap::slab_v2::ScalableSlabCache;
use slab_heap::slab_v3::{FreeSlabSlotList, LocklessSlabCache};

#[test]
fn classify_examples() {
    assert_eq!(determine_slot_size(0), 16);
    assert_eq!(determine_slot_size(1), 16);
    assert_eq!(determine_slot_size(16), 16);
    assert_eq!(determine_slot_size(17), 32);
    assert_eq!(determine_slot_size(100), 128);
    assert_eq!(determine_slot_size(1025), 2048);
    assert_eq!(determine_slot_size(2048), 2048);
}

#[test]
fn slot_size_match() {
    assert!(does_slot_size_match_obj_size(32, 17));
    assert!(!does_slot_size_match_obj_size(16, 17));
    assert!(does_slot_size_match_obj_size(16, 3));
    assert_eq!(slot_size_index(16), 0);
    assert_eq!(slot_size_index(2048), 7);
}

#[test]
fn slab_without_page_is_none() {
    assert!(Slab::new(None, 64, SlabExt::NoExt).is_none());
}

#[test]
fn slab_hands_out_exactly_total_slots() {
    let mut slab = Slab::new(Some(4096), 16, SlabExt::NoExt).unwrap();
    assert_eq!(slab.nr_total_slots(), 256);
    for i in 0..256usize {
        let slot = slab.new_slot().unwrap();
        assert_eq!(slot.as_raw(), 4096 + 16 * i);
        assert_eq!(slot.size(), 16);
        assert_eq!(slab.nr_used_slots(), i + 1);
    }
    assert!(!slab.has_unused_slots());
    assert!(slab.new_slot().is_none());
    assert_eq!(slab.nr_used_slots(), 256);
}

#[test]
fn slab_of_largest_class_has_two_slots() {
    let mut slab = Slab::new(Some(8192), 2048, SlabExt::NoExt).unwrap();
    assert_eq!(slab.nr_total_slots(), 2);
    assert_eq!(slab.new_slot().unwrap().as_raw(), 8192);
    assert_eq!(slab.new_slot().unwrap().as_raw(), 8192 + 2048);
    assert!(slab.new_slot().is_none());
}

#[test]
fn slab_counts_balance() {
    let mut slab = Slab::new(Some(4096), 512, SlabExt::NoExt).unwrap();
    let a = slab.new_slot().unwrap();
    let b = slab.new_slot().unwrap();
    let _c = slab.new_slot().unwrap();
    slab.recycle_slot(a);
    assert_eq!(slab.nr_used_slots(), 2);
    let mut free = 0usize;
    let mut taken = Vec::new();
    while let Some(s) = slab.new_slot() {
        free += 1;
        taken.push(s);
    }
    assert_eq!(slab.nr_used_slots(), 8);
    assert_eq!(2 + free, slab.nr_total_slots());
    assert_eq!(taken.len(), 6);
    slab.recycle_slot(b);
    assert_eq!(slab.nr_used_slots(), 7);
}

#[test]
fn recycled_slot_is_handed_out_next() {
    let mut slab = Slab::new(Some(4096), 64, SlabExt::NoExt).unwrap();
    let a = slab.new_slot().unwrap();
    let _b = slab.new_slot().unwrap();
    let addr = a.as_raw();
    slab.recycle_slot(a);
    assert_eq!(slab.nr_used_slots(), 1);
    assert_eq!(slab.new_slot().unwrap().as_raw(), addr);
}

#[test]
fn slab_metadata_and_extension() {
    let slab = Slab::new(Some(12288), 32, SlabExt::OwnerCpu(3)).unwrap();
    assert_eq!(*slab.slab_extension(), SlabExt::OwnerCpu(3));
    assert_eq!(slab.slab_meta().page, 12288);
    assert_eq!(slab.slab_meta().slot_size, 32);
    assert_eq!(slab.slab_meta().extension_as_any(), Some(3));
    assert_eq!(*slab.slab_meta().extension(), SlabExt::OwnerCpu(3));
    let plain = Slab::new(Some(4096), 32, SlabExt::NoExt).unwrap();
    assert_eq!(plain.slab_meta().extension_as_any(), None);
}

#[test]
fn drained_slab_gives_back_its_page() {
    let mut slab = Slab::new(Some(4096), 1024, SlabExt::NoExt).unwrap();
    let a = slab.new_slot().unwrap();
    slab.recycle_slot(a);
    assert_eq!(slab.dealloc(), 4096);
}

#[test]
fn box_round_trip() {
    let mut slab = Slab::new(Some(4096), 32, SlabExt::NoExt).unwrap();
    let slot = slab.new_slot().unwrap();
    let addr = slot.as_raw();
    let boxed = slot.into_box([1u8, 2, 3, 4, 5]);
    assert_eq!(boxed.as_raw(), addr);
    assert_eq!(*boxed.get(), [1u8, 2, 3, 4, 5]);
    let back = FreeSlabSlot::from_box(boxed);
    assert_eq!(back.as_raw(), addr);
    slab.recycle_slot(back);
    assert_eq!(slab.new_slot().unwrap().as_raw(), addr);
}

#[test]
fn shared_round_trip() {
    let mut slab = Slab::new(Some(4096), 64, SlabExt::NoExt).unwrap();
    let slot = slab.new_slot().unwrap();
    let addr = slot.as_raw();
    let mut shared = slot.into_arc(vec![9u8, 8, 7]);
    assert_eq!(shared.strong(), 1);
    shared.acquire();
    assert_eq!(shared.strong(), 2);
    assert_eq!(*shared.get(), vec![9u8, 8, 7]);
    shared.release();
    assert_eq!(shared.strong(), 1);
    let back = FreeSlabSlot::from_arc(shared);
    assert_eq!(back.as_raw(), addr);
    slab.recycle_slot(back);
    assert_eq!(slab.new_slot().unwrap().as_raw(), addr);
}

#[test]
fn slot_links() {
    let mut a = FreeSlabSlot::from_raw(16, 16);
    assert!(a.next_slot().is_none());
    assert!(a.replace_next_slot(FreeSlabSlot::from_raw(32, 16)).is_none());
    assert_eq!(a.next_slot().unwrap().as_raw(), 32);
    let old = a.replace_next_slot(FreeSlabSlot::from_raw(48, 16));
    assert_eq!(old.unwrap().as_raw(), 32);
    assert_eq!(a.take_next_slot().unwrap().as_raw(), 48);
    assert!(a.take_next_slot().is_none());
    assert_eq!(a.slab_page(), 0);
    assert_eq!(FreeSlabSlot::from_raw(4096 + 48, 16).slab_page(), 4096);
    assert_eq!(a.into_raw(), 16);
}

#[test]
fn aligned_slot_handle() {
    let slot = FreeSlabSlot::new(8192 + 256, 256);
    assert_eq!(slot.as_raw(), 8192 + 256);
    assert_eq!(slot.size(), 256);
    assert_eq!(slot.slab_page(), 8192);
    assert!(slot.next_slot().is_none());
}

#[test]
fn local_list_is_last_in_first_out() {
    let mut list = FreeSlabSlotList::new(16);
    assert!(list.pop().is_none());
    list.push(FreeSlabSlot::from_raw(4096 + 16, 16));
    list.push(FreeSlabSlot::from_raw(4096 + 32, 16));
    list.push(FreeSlabSlot::from_raw(4096 + 48, 16));
    assert_eq!(list.pop().unwrap().as_raw(), 4096 + 48);
    assert_eq!(list.pop().unwrap().as_raw(), 4096 + 32);
    let last = list.pop().unwrap();
    assert_eq!(last.as_raw(), 4096 + 16);
    assert!(last.next_slot().is_none());
    assert!(list.pop().is_none());
}

#[test]
fn single_lock_cache_takes_the_lock_each_time() {
    let mut cache = SinglePageSlabCache::new();
    assert_eq!(cache.nr_lock_acquisitions(), 0);
    cache.init(4096, 128, SlabExt::NoExt);
    assert_eq!(cache.nr_lock_acquisitions(), 1);
    assert_eq!(cache.slab_page(), 4096);
    let s = cache.new_slot().unwrap();
    assert_eq!(s.as_raw(), 4096);
    assert_eq!(cache.nr_lock_acquisitions(), 2);
    cache.recycle_slot(s);
    assert_eq!(cache.nr_lock_acquisitions(), 3);
    let s = cache.alloc_slot(0).unwrap();
    assert_eq!(s.as_raw(), 4096);
    cache.recycle(s, 5);
    assert_eq!(cache.nr_lock_acquisitions(), 5);
}

#[test]
fn single_lock_cache_runs_dry() {
    let mut cache = SinglePageSlabCache::new();
    cache.init(8192, 1024, SlabExt::NoExt);
    for i in 0..4usize {
        assert_eq!(cache.new_slot().unwrap().as_raw(), 8192 + 1024 * i);
    }
    assert!(cache.new_slot().is_none());
}

#[test]
fn per_cpu_cache_serves_from_own_cpu_and_recycles_to_owner() {
    let mut cache = ScalableSlabCache::new(16);
    cache.init(vec![4096, 8192]);
    assert_eq!(cache.slot_size(), 16);
    let on1 = cache.alloc_on(1).unwrap();
    assert_eq!(on1.as_raw(), 8192);
    let on0 = cache.alloc_slot(0).unwrap();
    assert_eq!(on0.as_raw(), 4096);
    assert_eq!(cache.owner_of(8192 + 16 * 5), 1);
    assert_eq!(cache.lock_acquisitions(0), 2);
    assert_eq!(cache.lock_acquisitions(1), 2);
    // freed on CPU 0, owned by CPU 1: CPU 1's lock is taken
    cache.recycle(on1, 0);
    assert_eq!(cache.lock_acquisitions(0), 2);
    assert_eq!(cache.lock_acquisitions(1), 3);
    assert_eq!(cache.alloc_on(1).unwrap().as_raw(), 8192);
    cache.recycle_slot(on0, 0);
    assert_eq!(cache.alloc_on(0).unwrap().as_raw(), 4096);
}

#[test]
fn lockless_same_cpu_cycle_takes_no_lock() {
    let mut cache = LocklessSlabCache::new(64);
    cache.init(vec![4096, 8192]);
    assert_eq!(cache.lock_acquisitions(0), 1);
    let s = cache.alloc_on(0).unwrap();
    assert_eq!(s.as_raw(), 4096);
    assert_eq!(cache.lock_acquisitions(0), 2);
    cache.recycle_slot(s, 0, 0);
    assert_eq!(cache.lock_acquisitions(0), 2);
    let s = cache.alloc_on(0).unwrap();
    assert_eq!(s.as_raw(), 4096);
    assert_eq!(cache.lock_acquisitions(0), 2);
    cache.recycle(s, 0);
    let s = cache.alloc_slot(0).unwrap();
    assert_eq!(s.as_raw(), 4096);
    assert_eq!(cache.lock_acquisitions(0), 2);
    assert_eq!(cache.lock_acquisitions(1), 1);
}

#[test]
fn lockless_cross_cpu_free_goes_to_owner_slab() {
    let mut cache = LocklessSlabCache::new(64);
    cache.init(vec![4096, 8192]);
    let s = cache.alloc_on(0).unwrap();
    assert_eq!(s.as_raw(), 4096);
    assert_eq!(cache.lock_acquisitions(0), 2);
    cache.recycle_slot(s, 0, 1);
    assert_eq!(cache.lock_acquisitions(0), 3);
    assert_eq!(cache.lock_acquisitions(1), 1);
    // CPU 1 does not see the slot; CPU 0's slab hands it out first
    assert_eq!(cache.alloc_on(1).unwrap().as_raw(), 8192);
    assert_eq!(cache.alloc_on(0).unwrap().as_raw(), 4096);
    assert_eq!(cache.lock_acquisitions(0), 4);
}

#[test]
fn lockless_trait_recycle_finds_owner() {
    let mut cache = LocklessSlabCache::new(2048);
    cache.init(vec![4096, 8192, 12288]);
    let s = cache.alloc_slot(2).unwrap();
    assert_eq!(s.as_raw(), 12288);
    cache.recycle(s, 1);
    assert_eq!(cache.lock_acquisitions(2), 3);
    assert_eq!(cache.lock_acquisitions(1), 1);
    let a = cache.alloc_slot(2).unwrap();
    let b = cache.alloc_slot(2).unwrap();
    assert_eq!(a.as_raw(), 12288);
    assert_eq!(b.as_raw(), 12288 + 2048);
    assert!(cache.alloc_slot(2).is_none());
}
