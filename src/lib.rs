//! A slab-based kernel heap: slabs of fixed-size slots, three slot-allocation
//! strategies (one lock, per-CPU locks, per-CPU lockless fast path), a bootstrap
//! heap, and the dispatcher that routes requests between them.
use vstd::prelude::*;

pub mod early_heap;
pub mod heap;
pub mod slab;
pub mod slab_v1;
pub mod slab_v2;
pub mod slab_v3;

verus! {

/// Size of one page, in bytes.
pub const PAGE_SIZE: usize = 4096;

/// The smallest slot size (size class) served by slabs.
pub const MIN_SLAB_SLOT_SIZE: usize = 16;

/// The largest slot size (size class) served by slabs.
pub const MAX_SLAB_SLOT_SIZE: usize = 2048;

/// The number of size classes: 16, 32, ..., 2048.
pub const NR_SIZE_CLASSES: usize = 8;

} // verus!
