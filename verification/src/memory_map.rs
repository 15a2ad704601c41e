//! The normalized memory regions written into the final memory map, and a
//! bounds-checked output buffer for them.
//!
//! The boot stage runs without a general-purpose allocator, so the final map
//! is written into caller-provided storage of fixed capacity. `RegionBuffer`
//! re-expresses the classic "write into an uninitialized buffer, track a
//! running count" pattern as a checked append: an append past the configured
//! capacity reports `CapacityError` instead of writing out of bounds.

use vstd::prelude::*;

verus! {

/// Classification of one region of the final memory map.
#[derive(Clone, Copy, Debug, PartialEq, Eq, Structural)]
pub enum MemoryRegionKind {
    /// Free memory that the next boot stage may use.
    Usable,
    /// Memory consumed by this boot stage (for example, frames handed out
    /// by the allocator); not free for the next stage.
    Bootloader,
    /// Memory the firmware marked as not usable. Finer firmware-specific
    /// sub-kinds are a deliberate extension point and are not distinguished
    /// here.
    Reserved,
}

/// One region of the final memory map: the half-open byte range
/// `[start, end)` together with its classification.
#[derive(Clone, Copy, Debug, PartialEq, Eq, Structural)]
pub struct MemoryRegion {
    /// Physical address of the first byte of the region.
    pub start: u64,
    /// Physical address one past the last byte of the region.
    pub end: u64,
    /// How the region is classified in the final map.
    pub kind: MemoryRegionKind,
}

/// The fatal signal raised when the output buffer has fewer slots than the
/// final memory map needs. This early in boot there is no way to grow the
/// buffer, so callers are expected to treat it as an unrecoverable fault.
#[derive(Clone, Copy, Debug, PartialEq, Eq, Structural)]
pub struct CapacityError;

/// A fixed-capacity output buffer for final memory regions.
///
/// Its view is the sequence of regions appended so far; appends beyond the
/// configured capacity are refused with `CapacityError`.
pub struct RegionBuffer {
    regions: Vec<MemoryRegion>,
    capacity: usize,
}

impl View for RegionBuffer {
    type V = Seq<MemoryRegion>;

    closed spec fn view(&self) -> Seq<MemoryRegion> {
        self.regions@
    }
}

impl RegionBuffer {
    /// The number of region slots this buffer was created with.
    pub closed spec fn spec_capacity(&self) -> usize {
        self.capacity
    }

    /// The buffer never holds more regions than its capacity.
    pub closed spec fn wf(&self) -> bool {
        self.regions@.len() <= self.capacity
    }

    /// Creates an empty buffer with room for `capacity` regions.
    pub fn new(capacity: usize) -> (r: Self)
        ensures
            r.wf(),
            r@ == Seq::<MemoryRegion>::empty(),
            r.spec_capacity() == capacity,
    {
        RegionBuffer { regions: Vec::new(), capacity }
    }

    /// Appends one region, unless the buffer is already at capacity.
    pub fn push(&mut self, region: MemoryRegion) -> (r: Result<(), CapacityError>)
        requires
            old(self).wf(),
        ensures
            final(self).wf(),
            final(self).spec_capacity() == old(self).spec_capacity(),
            if old(self)@.len() < old(self).spec_capacity() {
                r is Ok && final(self)@ == old(self)@.push(region)
            } else {
                r is Err && final(self)@ == old(self)@
            },
    {
        if self.regions.len() < self.capacity {
            self.regions.push(region);
            Ok(())
        } else {
            Err(CapacityError)
        }
    }

    /// The number of regions appended so far.
    pub fn len(&self) -> (r: usize)
        ensures
            r == self@.len(),
    {
        self.regions.len()
    }

    /// The number of region slots this buffer was created with.
    pub fn capacity(&self) -> (r: usize)
        ensures
            r == self.spec_capacity(),
    {
        self.capacity
    }

    /// Reads the region at position `i`.
    pub fn get(&self, i: usize) -> (r: MemoryRegion)
        requires
            i < self@.len(),
        ensures
            r == self@[i as int],
    {
        self.regions[i]
    }
}

} // verus!
