//! The frame allocator that walks a firmware-supplied list of memory
//! descriptors, and the pass that turns the exhausted allocator back into a
//! final, classified memory map.

use vstd::prelude::*;

use crate::memory_map::CapacityError;
use crate::memory_map::MemoryRegion;
use crate::memory_map::MemoryRegionKind;
use crate::memory_map::RegionBuffer;

verus! {

/// Size in bytes of one physical page frame, the unit of allocation.
pub const FRAME_SIZE: u64 = 4096;

/// Default physical address whose frame allocation starts at. Address zero is
/// deliberately never handed out: the calling environment's memory-safety
/// model treats address zero as never a valid allocated location, so the
/// default constructor skips the zero frame. This is a policy choice, not a
/// hardware requirement, and stays overridable through `new_starting_at`.
pub const DEFAULT_START_ADDR: u64 = 0x1000;

/// One past the largest physical address this allocator works with: the
/// 52-bit physical address space of the target architecture. Addresses with
/// any higher bit set are not valid physical addresses there, and the
/// architecture's typed address wrappers reject them.
pub const PHYS_ADDR_LIMIT: u64 = 0x10_0000_0000_0000;

/// The frame-aligned address of the frame containing `addr`.
pub open spec fn align_down(addr: u64) -> u64 {
    ((addr / FRAME_SIZE) * FRAME_SIZE) as u64
}

/// Basic facts about frame alignment of an address.
pub proof fn lemma_align_down(addr: u64)
    ensures
        align_down(addr) <= addr,
        align_down(addr) % FRAME_SIZE == 0,
        addr < align_down(addr) + FRAME_SIZE,
{
    vstd::arithmetic::div_mod::lemma_fundamental_div_mod(addr as int, FRAME_SIZE as int);
    vstd::arithmetic::div_mod::lemma_mod_bound(addr as int, FRAME_SIZE as int);
    vstd::arithmetic::div_mod::lemma_mod_multiples_basic(
        (addr / FRAME_SIZE) as int,
        FRAME_SIZE as int,
    );
}

/// Alignment never reorders addresses.
pub proof fn lemma_align_down_mono(a: u64, b: u64)
    requires
        a <= b,
    ensures
        align_down(a) <= align_down(b),
{
    vstd::arithmetic::div_mod::lemma_div_is_ordered(a as int, b as int, FRAME_SIZE as int);
}

/// Computes the frame-aligned address of the frame containing `addr`.
pub fn frame_containing_address(addr: u64) -> (r: u64)
    ensures
        r == align_down(addr),
{
    proof {
        lemma_align_down(addr);
        vstd::arithmetic::div_mod::lemma_fundamental_div_mod(addr as int, FRAME_SIZE as int);
    }
    addr - addr % FRAME_SIZE
}

/// One firmware-reported entry of the memory map: a contiguous physical
/// address range together with its usability. Concrete firmware formats
/// (e820-style, UEFI-style) implement this capability through adapters; the
/// allocation algorithm only ever sees this interface.
pub trait LegacyMemoryRegion: Sized + Copy {
    /// The physical address at which the described range starts.
    spec fn spec_start(&self) -> u64;

    /// The length in bytes of the described range.
    spec fn spec_len(&self) -> u64;

    /// Whether the firmware marks the range as general-purpose memory.
    spec fn spec_usable(&self) -> bool;

    /// Returns the start address of the region.
    fn start(&self) -> (r: u64)
        ensures
            r == self.spec_start(),
    ;

    /// Returns the length of the region in bytes.
    fn len(&self) -> (r: u64)
        ensures
            r == self.spec_len(),
    ;

    /// Returns whether the region is usable.
    fn usable(&self) -> (r: bool)
        ensures
            r == self.spec_usable(),
    ;

    /// Moves the effective start of the region, used to split off the part
    /// of a region that allocation consumed. Usability is unaffected.
    fn set_start(&mut self, new_start: u64)
        ensures
            final(self).spec_start() == new_start,
            final(self).spec_usable() == old(self).spec_usable(),
    ;
}

/// A plain-value memory descriptor, the simplest implementation of the
/// `LegacyMemoryRegion` capability. Adapters for concrete firmware table
/// formats convert their entries into this shape, or implement the trait
/// directly.
#[derive(Clone, Copy, Debug, PartialEq, Eq, Structural)]
pub struct MemoryDescriptor {
    /// Physical start address of the range.
    pub start: u64,
    /// Byte length of the range.
    pub len: u64,
    /// Whether the firmware marks the range as general-purpose memory.
    pub usable: bool,
}

impl LegacyMemoryRegion for MemoryDescriptor {
    open spec fn spec_start(&self) -> u64 {
        self.start
    }

    open spec fn spec_len(&self) -> u64 {
        self.len
    }

    open spec fn spec_usable(&self) -> bool {
        self.usable
    }

    fn start(&self) -> (r: u64) {
        self.start
    }

    fn len(&self) -> (r: u64) {
        self.len
    }

    fn usable(&self) -> (r: bool) {
        self.usable
    }

    fn set_start(&mut self, new_start: u64) {
        self.start = new_start;
    }
}

/// The end address (one past the last byte) of a descriptor, as a
/// mathematical integer.
pub open spec fn descriptor_end<D: LegacyMemoryRegion>(d: D) -> int {
    d.spec_start() + d.spec_len()
}

/// A descriptor is well formed when its range stays inside the physical
/// address space.
pub open spec fn descriptor_wf<D: LegacyMemoryRegion>(d: D) -> bool {
    descriptor_end(d) <= PHYS_ADDR_LIMIT
}

/// The first frame a descriptor can yield: the frame containing its start.
pub open spec fn first_frame<D: LegacyMemoryRegion>(d: D) -> u64 {
    align_down(d.spec_start())
}

/// The last frame a descriptor can yield: the frame containing its final
/// byte. Meaningful only for descriptors of non-zero length.
pub open spec fn last_frame<D: LegacyMemoryRegion>(d: D) -> u64 {
    align_down((d.spec_start() + d.spec_len() - 1) as u64)
}

/// Whether `frame` is one of the frames descriptor `d` can yield.
pub open spec fn frame_within<D: LegacyMemoryRegion>(frame: u64, d: D) -> bool {
    d.spec_len() > 0 && first_frame(d) <= frame <= last_frame(d)
}

/// Whether `frame` lies within some usable descriptor of `descs`.
pub open spec fn frame_from_usable<D: LegacyMemoryRegion>(frame: u64, descs: Seq<D>) -> bool {
    exists|i: int|
        0 <= i < descs.len() && (#[trigger] descs[i]).spec_usable() && frame_within(
            frame,
            descs[i],
        )
}

/// The larger of two frame addresses.
pub open spec fn frame_max(a: u64, b: u64) -> u64 {
    if a < b {
        b
    } else {
        a
    }
}

/// What one attempt to draw a frame out of descriptor `d` does, when the
/// cursor stands at `next`: the new cursor value, and the frame handed out,
/// if any. The cursor first snaps forward to the descriptor's first frame if
/// it is still below it; the snapped cursor frame is handed out if the
/// descriptor still covers it, and the cursor moves one frame further.
pub open spec fn spec_try_descriptor<D: LegacyMemoryRegion>(next: u64, d: D) -> (u64, Option<
    u64,
>) {
    if d.spec_len() == 0 {
        (next, Option::<u64>::None)
    } else {
        let snapped = frame_max(next, first_frame(d));
        if snapped <= last_frame(d) {
            ((snapped + FRAME_SIZE) as u64, Option::<u64>::Some(snapped))
        } else {
            (snapped, Option::<u64>::None)
        }
    }
}

/// What scanning the descriptor sequence for the next frame does, starting
/// at descriptor index `cursor` with the allocation cursor at `next`:
/// the final descriptor index, the cached descriptor, the final allocation
/// cursor, and the frame handed out, if any. Descriptors marked not usable
/// are skipped; the first usable descriptor that yields a frame is cached.
pub open spec fn spec_scan_descriptors<D: LegacyMemoryRegion>(
    descs: Seq<D>,
    cursor: int,
    next: u64,
) -> (int, Option<D>, u64, Option<u64>)
    decreases descs.len() - cursor,
{
    if cursor < 0 || cursor >= descs.len() {
        (cursor, Option::<D>::None, next, Option::<u64>::None)
    } else {
        let d = descs[cursor];
        if !d.spec_usable() {
            spec_scan_descriptors(descs, cursor + 1, next)
        } else {
            let t = spec_try_descriptor(next, d);
            if t.1 is Some {
                (cursor + 1, Option::<D>::Some(d), t.0, t.1)
            } else {
                spec_scan_descriptors(descs, cursor + 1, t.0)
            }
        }
    }
}

/// What one allocation call does to the allocator state `(cursor, current
/// descriptor, next frame)`: first the cached descriptor is tried, then the
/// scan goes on through the remaining descriptor sequence.
pub open spec fn spec_allocate_step<D: LegacyMemoryRegion>(
    descs: Seq<D>,
    cursor: int,
    current: Option<D>,
    next: u64,
) -> (int, Option<D>, u64, Option<u64>) {
    match current {
        Option::Some(d) => {
            let t = spec_try_descriptor(next, d);
            if t.1 is Some {
                (cursor, current, t.0, t.1)
            } else {
                spec_scan_descriptors(descs, cursor, t.0)
            }
        },
        Option::None => spec_scan_descriptors(descs, cursor, next),
    }
}

/// The region or regions the final memory map holds for one descriptor,
/// given the value `next_free` the allocation cursor ended at.
///
/// A usable descriptor wholly below `next_free` was consumed by this boot
/// stage; one wholly at or above it was never touched; one that `next_free`
/// falls strictly inside is split into its consumed prefix and its still
/// usable suffix, in that order. A descriptor the firmware marked not usable
/// passes through unchanged as one `Reserved` region.
pub open spec fn regions_for_descriptor<D: LegacyMemoryRegion>(d: D, next_free: u64) -> Seq<
    MemoryRegion,
>
    recommends
        descriptor_wf(d),
{
    let start = d.spec_start();
    let end = (d.spec_start() + d.spec_len()) as u64;
    if d.spec_usable() {
        if end <= next_free {
            seq![MemoryRegion { start, end, kind: MemoryRegionKind::Bootloader }]
        } else if start >= next_free {
            seq![MemoryRegion { start, end, kind: MemoryRegionKind::Usable }]
        } else {
            seq![
                MemoryRegion { start, end: next_free, kind: MemoryRegionKind::Bootloader },
                MemoryRegion { start: next_free, end, kind: MemoryRegionKind::Usable },
            ]
        }
    } else {
        seq![MemoryRegion { start, end, kind: MemoryRegionKind::Reserved }]
    }
}

/// The whole final memory map for a descriptor sequence: the regions of each
/// descriptor, in original descriptor order.
pub open spec fn final_regions<D: LegacyMemoryRegion>(descs: Seq<D>, next_free: u64) -> Seq<
    MemoryRegion,
>
    decreases descs.len(),
{
    if descs.len() == 0 {
        Seq::empty()
    } else {
        final_regions(descs.drop_last(), next_free) + regions_for_descriptor(
            descs.last(),
            next_free,
        )
    }
}

/// Extending the processed prefix by one descriptor appends exactly that
/// descriptor's regions.
proof fn lemma_final_regions_snoc<D: LegacyMemoryRegion>(descs: Seq<D>, j: int, next_free: u64)
    requires
        0 <= j < descs.len(),
    ensures
        final_regions(descs.take(j + 1), next_free) == final_regions(descs.take(j), next_free)
            + regions_for_descriptor(descs[j], next_free),
{
    let prefix = descs.take(j + 1);
    assert(prefix.drop_last() =~= descs.take(j));
    assert(prefix.last() == descs[j]);
}

/// A prefix of the descriptor sequence never needs more regions than the
/// whole sequence.
proof fn lemma_final_regions_prefix_len<D: LegacyMemoryRegion>(
    descs: Seq<D>,
    j: int,
    next_free: u64,
)
    requires
        0 <= j <= descs.len(),
    ensures
        final_regions(descs.take(j), next_free).len() <= final_regions(descs, next_free).len(),
    decreases descs.len() - j,
{
    if j == descs.len() {
        assert(descs.take(j) =~= descs);
    } else {
        lemma_final_regions_snoc(descs, j, next_free);
        lemma_final_regions_prefix_len(descs, j + 1, next_free);
    }
}

/// The regions of each descriptor of `descs`, one group per descriptor, in
/// original descriptor order. The final memory map is the concatenation of
/// these groups.
pub open spec fn descriptor_region_groups<D: LegacyMemoryRegion>(
    descs: Seq<D>,
    next_free: u64,
) -> Seq<Seq<MemoryRegion>> {
    descs.map(|i: int, d: D| regions_for_descriptor(d, next_free))
}

/// Whether the byte ranges of `rs`, concatenated in order, are exactly the
/// range `[lo, hi)`: they start at `lo`, end at `hi`, and each region begins
/// precisely where the one before it ended — no gap, no overlap, no byte
/// dropped or duplicated.
pub open spec fn covers_exactly(rs: Seq<MemoryRegion>, lo: u64, hi: u64) -> bool {
    &&& rs.len() >= 1
    &&& rs.first().start == lo
    &&& rs.last().end == hi
    &&& forall|k: int| 0 <= k < rs.len() - 1 ==> (#[trigger] rs[k]).end == rs[k + 1].start
    &&& forall|k: int| 0 <= k < rs.len() ==> (#[trigger] rs[k]).start <= rs[k].end
}

/// Law: the regions emitted for one descriptor tile exactly the descriptor's
/// own byte range.
pub proof fn lemma_descriptor_coverage<D: LegacyMemoryRegion>(d: D, next_free: u64)
    requires
        descriptor_wf(d),
    ensures
        covers_exactly(
            regions_for_descriptor(d, next_free),
            d.spec_start(),
            (d.spec_start() + d.spec_len()) as u64,
        ),
{
}

/// The final memory map is the concatenation of the per-descriptor groups.
proof fn lemma_final_regions_flatten<D: LegacyMemoryRegion>(descs: Seq<D>, next_free: u64)
    ensures
        final_regions(descs, next_free) == descriptor_region_groups(
            descs,
            next_free,
        ).flatten_alt(),
    decreases descs.len(),
{
    let groups = descriptor_region_groups(descs, next_free);
    if descs.len() == 0 {
        assert(final_regions(descs, next_free) =~= groups.flatten_alt());
    } else {
        lemma_final_regions_flatten(descs.drop_last(), next_free);
        assert(descriptor_region_groups(descs.drop_last(), next_free) =~= groups.drop_last());
        assert(final_regions(descs, next_free) =~= groups.flatten_alt());
    }
}

/// Law: coverage conservation. The final memory map is, group by group, the
/// concatenation of each descriptor's regions in original order, and each
/// group's byte ranges tile exactly that descriptor's byte range: no byte of
/// any original descriptor is dropped, none is duplicated within a
/// descriptor, and no byte outside the descriptors is emitted.
#[verifier::rlimit(50)]
pub proof fn lemma_coverage_conservation<D: LegacyMemoryRegion>(descs: Seq<D>, next_free: u64)
    requires
        forall|i: int| 0 <= i < descs.len() ==> descriptor_wf(#[trigger] descs[i]),
    ensures
        final_regions(descs, next_free) == descriptor_region_groups(descs, next_free).flatten(),
        descriptor_region_groups(descs, next_free).len() == descs.len(),
        forall|i: int|
            0 <= i < descs.len() ==> covers_exactly(
                #[trigger] descriptor_region_groups(descs, next_free)[i],
                descs[i].spec_start(),
                (descs[i].spec_start() + descs[i].spec_len()) as u64,
            ),
{
    let groups = descriptor_region_groups(descs, next_free);
    lemma_final_regions_flatten(descs, next_free);
    groups.lemma_flatten_and_flatten_alt_are_equivalent();
    assert forall|i: int| 0 <= i < descs.len() implies covers_exactly(
        #[trigger] descriptor_region_groups(descs, next_free)[i],
        descs[i].spec_start(),
        (descs[i].spec_start() + descs[i].spec_len()) as u64,
    ) by {
        lemma_descriptor_coverage(descs[i], next_free);
    }
}

/// Law: untouched pass-through. A usable descriptor lying entirely at or
/// above the final cursor value is emitted unchanged, as one `Usable` region
/// spanning the whole descriptor.
pub proof fn lemma_untouched_pass_through<D: LegacyMemoryRegion>(d: D, next_free: u64)
    requires
        descriptor_wf(d),
        d.spec_usable(),
        d.spec_len() > 0,
        d.spec_start() >= next_free,
    ensures
        regions_for_descriptor(d, next_free) == seq![
            MemoryRegion {
                start: d.spec_start(),
                end: (d.spec_start() + d.spec_len()) as u64,
                kind: MemoryRegionKind::Usable,
            },
        ],
{
}

/// Law: reserved pass-through. A descriptor the firmware marked not usable
/// is emitted unchanged, as one `Reserved` region spanning the whole
/// descriptor, whatever the final cursor value.
pub proof fn lemma_reserved_pass_through<D: LegacyMemoryRegion>(d: D, next_free: u64)
    requires
        !d.spec_usable(),
    ensures
        regions_for_descriptor(d, next_free) == seq![
            MemoryRegion {
                start: d.spec_start(),
                end: (d.spec_start() + d.spec_len()) as u64,
                kind: MemoryRegionKind::Reserved,
            },
        ],
{
}

/// A sequential allocator of physical page frames, drawing from a
/// firmware-supplied sequence of memory descriptors.
///
/// A single cursor (`next_frame`) sweeps the physical address space from low
/// to high across all descriptors, so frames are handed out in strictly
/// increasing address order, whatever order the firmware enumerated the
/// descriptors in. A descriptor with remaining room is cached in
/// `current_descriptor` between calls.
pub struct LegacyFrameAllocator<D> {
    original: Vec<D>,
    cursor: usize,
    current_descriptor: Option<D>,
    next_frame: u64,
    start_frame: Ghost<u64>,
    allocated: Ghost<Seq<u64>>,
}

impl<D: LegacyMemoryRegion> LegacyFrameAllocator<D> {
    /// The descriptor sequence the allocator was built over.
    pub closed spec fn descriptors(&self) -> Seq<D> {
        self.original@
    }

    /// The cursor: the frame the next allocation will try first. Every frame
    /// handed out so far lies strictly below it.
    pub closed spec fn spec_next_frame(&self) -> u64 {
        self.next_frame
    }

    /// The configured lower bound: no frame below it is ever handed out.
    pub closed spec fn spec_start_frame(&self) -> u64 {
        self.start_frame@
    }

    /// Every frame handed out so far, in the order of allocation.
    pub closed spec fn allocated_frames(&self) -> Seq<u64> {
        self.allocated@
    }

    /// The live cursor over the descriptor sequence: the index of the next
    /// descriptor the scan will look at.
    pub closed spec fn spec_cursor(&self) -> int {
        self.cursor as int
    }

    /// The descriptor cached from the last successful allocation, if it may
    /// still have room.
    pub closed spec fn spec_current_descriptor(&self) -> Option<D> {
        self.current_descriptor
    }

    /// Whether the allocator has run out of usable memory: the live cursor
    /// has passed every descriptor and none is cached. From this state every
    /// further allocation reports `None`.
    pub closed spec fn exhausted(&self) -> bool {
        self.cursor == self.original@.len() && self.current_descriptor is None
    }

    /// The allocator's invariant. It carries the guarantees that hold across
    /// any sequence of allocations:
    /// frames are handed out in strictly increasing order, never below the
    /// configured start frame, always frame-aligned, and always out of a
    /// usable descriptor.
    pub closed spec fn wf(&self) -> bool {
        &&& forall|i: int|
            0 <= i < self.original@.len() ==> descriptor_wf(#[trigger] self.original@[i])
        &&& self.cursor <= self.original@.len()
        &&& self.next_frame % FRAME_SIZE == 0
        &&& self.next_frame <= PHYS_ADDR_LIMIT
        &&& self.start_frame@ % FRAME_SIZE == 0
        &&& self.start_frame@ <= self.next_frame
        &&& match self.current_descriptor {
            Some(d) => d.spec_usable() && d.spec_len() > 0 && exists|i: int|
                0 <= i < self.original@.len() && #[trigger] self.original@[i] == d,
            None => true,
        }
        &&& forall|i: int|
            0 <= i < self.cursor ==> ({
                let d = #[trigger] self.original@[i];
                d.spec_usable() && d.spec_len() > 0 ==> (last_frame(d) < self.next_frame
                    || self.current_descriptor == Some(d))
            })
        &&& forall|k: int|
            0 <= k < self.allocated@.len() ==> (#[trigger] self.allocated@[k]) % FRAME_SIZE == 0
        &&& forall|k: int|
            0 <= k < self.allocated@.len() ==> self.start_frame@ <= #[trigger] self.allocated@[k]
        &&& forall|k: int|
            0 <= k < self.allocated@.len() ==> #[trigger] self.allocated@[k] < self.next_frame
        &&& forall|k: int, l: int|
            0 <= k < l < self.allocated@.len() ==> #[trigger] self.allocated@[k]
                < #[trigger] self.allocated@[l]
        &&& forall|k: int|
            0 <= k < self.allocated@.len() ==> frame_from_usable(
                #[trigger] self.allocated@[k],
                self.original@,
            )
    }

    /// Creates the allocator with the default start frame: the frame
    /// containing `DEFAULT_START_ADDR`, so that address zero is never
    /// handed out.
    pub fn new(memory_map: Vec<D>) -> (r: Self)
        requires
            forall|i: int|
                0 <= i < memory_map@.len() ==> descriptor_wf(#[trigger] memory_map@[i]),
        ensures
            r.wf(),
            r.descriptors() == memory_map@,
            r.spec_start_frame() == DEFAULT_START_ADDR,
            r.spec_next_frame() == DEFAULT_START_ADDR,
            r.spec_cursor() == 0,
            r.spec_current_descriptor() is None,
            r.allocated_frames() == Seq::<u64>::empty(),
    {
        let start_frame = frame_containing_address(DEFAULT_START_ADDR);
        proof {
            lemma_align_down(DEFAULT_START_ADDR);
            assert(align_down(DEFAULT_START_ADDR) == DEFAULT_START_ADDR);
        }
        Self::new_starting_at(start_frame, memory_map)
    }

    /// Creates the allocator with an explicit first frame: no frame below
    /// `frame` will ever be handed out.
    pub fn new_starting_at(frame: u64, memory_map: Vec<D>) -> (r: Self)
        requires
            frame % FRAME_SIZE == 0,
            frame <= PHYS_ADDR_LIMIT,
            forall|i: int|
                0 <= i < memory_map@.len() ==> descriptor_wf(#[trigger] memory_map@[i]),
        ensures
            r.wf(),
            r.descriptors() == memory_map@,
            r.spec_start_frame() == frame,
            r.spec_next_frame() == frame,
            r.spec_cursor() == 0,
            r.spec_current_descriptor() is None,
            r.allocated_frames() == Seq::<u64>::empty(),
    {
        LegacyFrameAllocator {
            original: memory_map,
            cursor: 0,
            current_descriptor: None,
            next_frame: frame,
            start_frame: Ghost(frame),
            allocated: Ghost(Seq::empty()),
        }
    }

    /// Tries to draw the next frame out of one descriptor: snaps the cursor
    /// forward to the descriptor's first frame if the cursor is still below
    /// it (later descriptors never rewind the cursor), then hands out the
    /// cursor frame if the descriptor still covers it.
    fn allocate_frame_from_descriptor(&mut self, descriptor: D) -> (r: Option<u64>)
        requires
            descriptor_wf(descriptor),
            old(self).next_frame % FRAME_SIZE == 0,
            old(self).next_frame <= PHYS_ADDR_LIMIT,
        ensures
            final(self).original == old(self).original,
            final(self).cursor == old(self).cursor,
            final(self).current_descriptor == old(self).current_descriptor,
            final(self).start_frame == old(self).start_frame,
            final(self).allocated == old(self).allocated,
            final(self).next_frame % FRAME_SIZE == 0,
            final(self).next_frame <= PHYS_ADDR_LIMIT,
            old(self).next_frame <= final(self).next_frame,
            final(self).next_frame == spec_try_descriptor(old(self).next_frame, descriptor).0,
            r == spec_try_descriptor(old(self).next_frame, descriptor).1,
            r is Some ==> frame_within(r->Some_0, descriptor),
    {
        let start_addr = descriptor.start();
        let length = descriptor.len();
        if length == 0 {
            return None;
        }
        let start_frame = frame_containing_address(start_addr);
        let end_addr = start_addr + length;
        let end_frame = frame_containing_address(end_addr - 1);

        // increase self.next_frame to start_frame if smaller
        if self.next_frame < start_frame {
            proof {
                lemma_align_down(start_addr);
            }
            self.next_frame = start_frame;
        }

        if self.next_frame <= end_frame {
            proof {
                lemma_align_down((end_addr - 1) as u64);
                lemma_align_down_mono((end_addr - 1) as u64, (PHYS_ADDR_LIMIT - 1) as u64);
                assert(align_down((PHYS_ADDR_LIMIT - 1) as u64) == PHYS_ADDR_LIMIT - FRAME_SIZE);
            }
            let ret = self.next_frame;
            self.next_frame = self.next_frame + FRAME_SIZE;
            Some(ret)
        } else {
            None
        }
    }

    /// Allocates one physical page frame, or reports that no usable memory
    /// remains.
    ///
    /// The call performs exactly one `spec_allocate_step` on the state: the
    /// cached descriptor is tried first, then the scan moves on through the
    /// remaining descriptors. On success the returned frame is
    /// frame-aligned, at or above the configured start frame, at or above
    /// every frame handed out before (the cursor never rewinds), and
    /// covered by some usable descriptor. `None` is not a fault: it says
    /// the allocator is exhausted, and once it is, every further call
    /// reports `None` again.
    pub fn allocate_frame(&mut self) -> (r: Option<u64>)
        requires
            old(self).wf(),
        ensures
            final(self).wf(),
            final(self).descriptors() == old(self).descriptors(),
            final(self).spec_start_frame() == old(self).spec_start_frame(),
            old(self).spec_next_frame() <= final(self).spec_next_frame(),
            (
                final(self).spec_cursor(),
                final(self).spec_current_descriptor(),
                final(self).spec_next_frame(),
                r,
            ) == spec_allocate_step(
                old(self).descriptors(),
                old(self).spec_cursor(),
                old(self).spec_current_descriptor(),
                old(self).spec_next_frame(),
            ),
            match r {
                Some(frame) => {
                    &&& frame % FRAME_SIZE == 0
                    &&& old(self).spec_start_frame() <= frame
                    &&& old(self).spec_next_frame() <= frame
                    &&& final(self).spec_next_frame() == frame + FRAME_SIZE
                    &&& frame_from_usable(frame, old(self).descriptors())
                    &&& final(self).allocated_frames() == old(self).allocated_frames().push(
                        frame,
                    )
                },
                None => {
                    &&& final(self).allocated_frames() == old(self).allocated_frames()
                    &&& final(self).exhausted()
                },
            },
            old(self).exhausted() ==> r is None,
    {
        let ghost target = spec_allocate_step(
            old(self).descriptors(),
            old(self).spec_cursor(),
            old(self).spec_current_descriptor(),
            old(self).spec_next_frame(),
        );
        if let Some(current_descriptor) = self.current_descriptor {
            proof {
                let i = choose|i: int|
                    0 <= i < self.original@.len() && self.original@[i] == current_descriptor;
                assert(descriptor_wf(self.original@[i]));
            }
            match self.allocate_frame_from_descriptor(current_descriptor) {
                Some(frame) => {
                    self.allocated = Ghost(self.allocated@.push(frame));
                    proof {
                        let i = choose|i: int|
                            0 <= i < self.original@.len() && self.original@[i]
                                == current_descriptor;
                        assert(self.original@[i].spec_usable() && frame_within(
                            frame,
                            self.original@[i],
                        ));
                    }
                    return Some(frame);
                },
                None => {
                    self.current_descriptor = None;
                },
            }
        }

        // find next suitable descriptor
        while self.cursor < self.original.len()
            invariant
                self.wf(),
                self.current_descriptor is None,
                self.original == old(self).original,
                self.start_frame == old(self).start_frame,
                self.allocated == old(self).allocated,
                old(self).next_frame <= self.next_frame,
                old(self).cursor <= self.cursor,
                spec_scan_descriptors(self.original@, self.cursor as int, self.next_frame)
                    == target,
                target == spec_allocate_step(
                    old(self).descriptors(),
                    old(self).spec_cursor(),
                    old(self).spec_current_descriptor(),
                    old(self).spec_next_frame(),
                ),
            decreases self.original@.len() - self.cursor,
        {
            let descriptor = self.original[self.cursor];
            let ghost descriptor_index = self.cursor as int;
            let ghost next_at_top = self.next_frame;
            proof {
                assert(spec_scan_descriptors(self.original@, descriptor_index, next_at_top)
                    == if !descriptor.spec_usable() {
                    spec_scan_descriptors(self.original@, descriptor_index + 1, next_at_top)
                } else {
                    let t = spec_try_descriptor(next_at_top, descriptor);
                    if t.1 is Some {
                        (descriptor_index + 1, Some(descriptor), t.0, t.1)
                    } else {
                        spec_scan_descriptors(self.original@, descriptor_index + 1, t.0)
                    }
                });
            }
            self.cursor = self.cursor + 1;
            if !descriptor.usable() {
                continue ;
            }
            if let Some(frame) = self.allocate_frame_from_descriptor(descriptor) {
                self.current_descriptor = Some(descriptor);
                self.allocated = Ghost(self.allocated@.push(frame));
                proof {
                    assert(self.original@[descriptor_index].spec_usable() && frame_within(
                        frame,
                        self.original@[descriptor_index],
                    ));
                }
                return Some(frame);
            }
        }

        None
    }

    /// The number of descriptors the allocator was built over. It bounds the
    /// size of the final memory map: splitting adds at most one extra region
    /// per usable descriptor, so at most `2 * len()` regions are emitted.
    pub fn len(&self) -> (r: usize)
        ensures
            r == self.descriptors().len(),
    {
        self.original.len()
    }

    /// The largest physical address the firmware reported: the maximum of
    /// `start + len` over all descriptors. Callers use it to size downstream
    /// structures before the final map exists.
    pub fn max_phys_addr(&self) -> (r: u64)
        requires
            self.wf(),
            self.descriptors().len() > 0,
        ensures
            forall|i: int|
                0 <= i < self.descriptors().len() ==> descriptor_end(
                    #[trigger] self.descriptors()[i],
                ) <= r,
            exists|i: int|
                0 <= i < self.descriptors().len() && descriptor_end(
                    #[trigger] self.descriptors()[i],
                ) == r,
    {
        let mut max_addr: u64 = 0;
        let mut i: usize = 0;
        while i < self.original.len()
            invariant
                self.wf(),
                0 < self.original@.len(),
                i <= self.original@.len(),
                forall|j: int|
                    0 <= j < i ==> descriptor_end(#[trigger] self.original@[j]) <= max_addr,
                i == 0 ==> max_addr == 0,
                i > 0 ==> exists|j: int|
                    0 <= j < i && descriptor_end(#[trigger] self.original@[j]) == max_addr,
            decreases self.original@.len() - i,
        {
            let descriptor = self.original[i];
            let end = descriptor.start() + descriptor.len();
            if end > max_addr {
                max_addr = end;
            }
            i = i + 1;
        }
        max_addr
    }

    /// Consumes the allocator and writes the final, classified memory map
    /// into `regions`, one or two regions per original descriptor, in
    /// original descriptor order.
    ///
    /// The capacity of the buffer is checked against the exact number of
    /// regions the map needs before anything is written: on success the
    /// buffer holds exactly `final_regions(...)`, and if the buffer is too
    /// small the fatal `CapacityError` is reported and the buffer is left
    /// untouched — never silently truncated.
    pub fn construct_memory_map(self, regions: &mut RegionBuffer) -> (r: Result<
        usize,
        CapacityError,
    >)
        requires
            self.wf(),
            old(regions).wf(),
            old(regions)@.len() == 0,
            2 * self.descriptors().len() <= usize::MAX,
        ensures
            final(regions).wf(),
            final(regions).spec_capacity() == old(regions).spec_capacity(),
            match r {
                Ok(count) => {
                    &&& final(regions)@ == final_regions(
                        self.descriptors(),
                        self.spec_next_frame(),
                    )
                    &&& count == final(regions)@.len()
                    &&& count <= old(regions).spec_capacity()
                },
                Err(_) => {
                    &&& final(regions)@ == old(regions)@
                    &&& final_regions(self.descriptors(), self.spec_next_frame()).len() > old(
                        regions,
                    ).spec_capacity()
                },
            },
    {
        let next_free = self.next_frame;
        proof {
            assert(self.original@.take(0) =~= Seq::<D>::empty());
        }

        // First pass: count how many regions the final map needs.
        let mut needed: usize = 0;
        let mut i: usize = 0;
        while i < self.original.len()
            invariant
                self.wf(),
                next_free == self.next_frame,
                i <= self.original@.len(),
                2 * self.original@.len() <= usize::MAX,
                needed <= 2 * i,
                needed == final_regions(self.original@.take(i as int), next_free).len(),
            decreases self.original@.len() - i,
        {
            let descriptor = self.original[i];
            let start_addr = descriptor.start();
            let end = start_addr + descriptor.len();
            let splits: bool = descriptor.usable() && start_addr < next_free && next_free < end;
            let contributes: usize = if splits {
                2
            } else {
                1
            };
            proof {
                lemma_final_regions_snoc(self.original@, i as int, next_free);
            }
            needed = needed + contributes;
            i = i + 1;
        }
        proof {
            assert(self.original@.take(self.original@.len() as int) =~= self.original@);
        }

        if needed > regions.capacity() {
            return Err(CapacityError);
        }

        // Second pass: emit the regions, in original descriptor order.
        let ghost all_regions = final_regions(self.original@, next_free);
        let mut idx: usize = 0;
        while idx < self.original.len()
            invariant
                self.wf(),
                next_free == self.next_frame,
                idx <= self.original@.len(),
                regions.wf(),
                regions.spec_capacity() == old(regions).spec_capacity(),
                all_regions == final_regions(self.original@, self.next_frame),
                all_regions.len() <= regions.spec_capacity(),
                regions@ == final_regions(self.original@.take(idx as int), next_free),
            decreases self.original@.len() - idx,
        {
            let mut descriptor = self.original[idx];
            let end = descriptor.start() + descriptor.len();
            proof {
                lemma_final_regions_snoc(self.original@, idx as int, next_free);
                lemma_final_regions_prefix_len(self.original@, idx as int + 1, next_free);
            }
            let kind = if descriptor.usable() {
                if end <= next_free {
                    MemoryRegionKind::Bootloader
                } else if descriptor.start() >= next_free {
                    MemoryRegionKind::Usable
                } else {
                    // part of the region was consumed -> emit that part separately
                    let used_region = MemoryRegion {
                        start: descriptor.start(),
                        end: next_free,
                        kind: MemoryRegionKind::Bootloader,
                    };
                    match regions.push(used_region) {
                        Ok(_) => {},
                        Err(e) => {
                            return Err(e);
                        },
                    }
                    // emit the unused part normally
                    descriptor.set_start(next_free);
                    MemoryRegionKind::Usable
                }
            } else {
                MemoryRegionKind::Reserved
            };
            let region = MemoryRegion { start: descriptor.start(), end, kind };
            match regions.push(region) {
                Ok(_) => {},
                Err(e) => {
                    return Err(e);
                },
            }
            proof {
                assert(regions@ =~= final_regions(
                    self.original@.take(idx as int + 1),
                    next_free,
                ));
            }
            idx = idx + 1;
        }
        proof {
            assert(self.original@.take(self.original@.len() as int) =~= self.original@);
        }
        Ok(regions.len())
    }

    /// Law: monotonic frame order. Over any sequence of successful
    /// allocation calls, each returned frame's address is strictly greater
    /// than the one before it.
    pub proof fn lemma_monotonic_frame_order(&self)
        requires
            self.wf(),
        ensures
            forall|k: int, l: int|
                0 <= k < l < self.allocated_frames().len() ==> #[trigger] self.allocated_frames()[k]
                    < #[trigger] self.allocated_frames()[l],
    {
    }

    /// Law: lower bound respected. No frame below the configured start frame
    /// is ever returned, even if a descriptor claims usable memory below it.
    pub proof fn lemma_lower_bound_respected(&self)
        requires
            self.wf(),
        ensures
            forall|k: int|
                0 <= k < self.allocated_frames().len() ==> self.spec_start_frame()
                    <= #[trigger] self.allocated_frames()[k],
    {
    }

    /// Law: exhaustion is honest. When the allocator is exhausted, every
    /// usable descriptor's frames really do lie strictly below the cursor:
    /// no usable memory was passed over.
    pub proof fn lemma_exhausted_means_consumed(&self)
        requires
            self.wf(),
            self.exhausted(),
        ensures
            forall|i: int|
                0 <= i < self.descriptors().len() ==> ({
                    let d = #[trigger] self.descriptors()[i];
                    d.spec_usable() && d.spec_len() > 0 ==> last_frame(d) < self.spec_next_frame()
                }),
    {
    }

    /// Law: unusable skip. Every frame ever returned lies within the frame
    /// range of some descriptor marked usable; descriptors marked not usable
    /// never contribute allocated frames.
    pub proof fn lemma_unusable_skip(&self)
        requires
            self.wf(),
        ensures
            forall|k: int|
                0 <= k < self.allocated_frames().len() ==> frame_from_usable(
                    #[trigger] self.allocated_frames()[k],
                    self.descriptors(),
                ),
    {
    }
}

} // verus!
