//! Behaviour of the final memory-map construction and the region buffer.

use boot_frame_alloc::legacy_memory_region::LegacyFrameAllocator;
use boot_frame_alloc::legacy_memory_region::MemoryDescriptor;
use boot_frame_alloc::memory_map::CapacityError;
use boot_frame_alloc::memory_map::MemoryRegion;
use boot_frame_alloc::memory_map::MemoryRegionKind;
use boot_frame_alloc::memory_map::RegionBuffer;

fn descriptor(start: u64, len: u64, usable: bool) -> MemoryDescriptor {
    MemoryDescriptor { start, len, usable }
}

fn region(start: u64, end: u64, kind: MemoryRegionKind) -> MemoryRegion {
    MemoryRegion { start, end, kind }
}

fn regions_of(buffer: &RegionBuffer) -> Vec<MemoryRegion> {
    let mut out = Vec::new();
    for i in 0..buffer.len() {
        out.push(buffer.get(i));
    }
    out
}

#[test]
fn split_correctness() {
    let descriptors = vec![descriptor(0x1000, 0x4000, true)];
    let mut allocator = LegacyFrameAllocator::new(descriptors);
    assert_eq!(allocator.allocate_frame(), Some(0x1000));
    assert_eq!(allocator.allocate_frame(), Some(0x2000));
    let mut buffer = RegionBuffer::new(2);
    let written = allocator.construct_memory_map(&mut buffer);
    assert_eq!(written, Ok(2));
    assert_eq!(
        regions_of(&buffer),
        vec![
            region(0x1000, 0x3000, MemoryRegionKind::Bootloader),
            region(0x3000, 0x5000, MemoryRegionKind::Usable),
        ]
    );
}

#[test]
fn full_consumption() {
    let descriptors = vec![descriptor(0x1000, 0x4000, true)];
    let mut allocator = LegacyFrameAllocator::new(descriptors);
    for expected in [0x1000u64, 0x2000, 0x3000, 0x4000] {
        assert_eq!(allocator.allocate_frame(), Some(expected));
    }
    assert_eq!(allocator.allocate_frame(), None);
    let mut buffer = RegionBuffer::new(2);
    let written = allocator.construct_memory_map(&mut buffer);
    assert_eq!(written, Ok(1));
    assert_eq!(
        regions_of(&buffer),
        vec![region(0x1000, 0x5000, MemoryRegionKind::Bootloader)]
    );
}

#[test]
fn untouched_descriptor_stays_usable() {
    let descriptors = vec![descriptor(0x1000, 0x1000, true), descriptor(0x100000, 0x2000, true)];
    let mut allocator = LegacyFrameAllocator::new(descriptors);
    assert_eq!(allocator.allocate_frame(), Some(0x1000));
    let mut buffer = RegionBuffer::new(4);
    let written = allocator.construct_memory_map(&mut buffer);
    assert_eq!(written, Ok(2));
    assert_eq!(
        regions_of(&buffer),
        vec![
            region(0x1000, 0x2000, MemoryRegionKind::Bootloader),
            region(0x100000, 0x102000, MemoryRegionKind::Usable),
        ]
    );
}

#[test]
fn reserved_descriptor_passes_through() {
    let descriptors = vec![
        descriptor(0x1000, 0x2000, true),
        descriptor(0x3000, 0x1000, false),
        descriptor(0x200000, 0x1000, false),
    ];
    let mut allocator = LegacyFrameAllocator::new(descriptors);
    assert_eq!(allocator.allocate_frame(), Some(0x1000));
    let mut buffer = RegionBuffer::new(4);
    let written = allocator.construct_memory_map(&mut buffer);
    assert_eq!(written, Ok(4));
    let regions = regions_of(&buffer);
    // One reserved descriptor below the cursor, one far above: both are
    // emitted unchanged, whatever the cursor position.
    assert_eq!(regions[2], region(0x3000, 0x4000, MemoryRegionKind::Reserved));
    assert_eq!(regions[3], region(0x200000, 0x201000, MemoryRegionKind::Reserved));
}

#[test]
fn coverage_conservation() {
    let descriptors = vec![
        descriptor(0x1000, 0x2000, true),
        descriptor(0x3000, 0x1000, false),
        descriptor(0x4000, 0x4000, true),
    ];
    let mut allocator = LegacyFrameAllocator::new(descriptors.clone());
    assert_eq!(allocator.allocate_frame(), Some(0x1000));
    assert_eq!(allocator.allocate_frame(), Some(0x2000));
    assert_eq!(allocator.allocate_frame(), Some(0x4000));
    let mut buffer = RegionBuffer::new(6);
    let written = allocator.construct_memory_map(&mut buffer);
    assert_eq!(written, Ok(4));
    let regions = regions_of(&buffer);
    assert_eq!(
        regions,
        vec![
            region(0x1000, 0x3000, MemoryRegionKind::Bootloader),
            region(0x3000, 0x4000, MemoryRegionKind::Reserved),
            region(0x4000, 0x5000, MemoryRegionKind::Bootloader),
            region(0x5000, 0x8000, MemoryRegionKind::Usable),
        ]
    );
    // The emitted byte ranges, concatenated, are exactly the descriptors'
    // byte ranges: contiguous here, with no byte dropped or duplicated.
    assert_eq!(regions.first().unwrap().start, 0x1000);
    assert_eq!(regions.last().unwrap().end, 0x8000);
    for pair in regions.windows(2) {
        assert_eq!(pair[0].end, pair[1].start);
    }
    let emitted: u64 = regions.iter().map(|r| r.end - r.start).sum();
    let described: u64 = descriptors.iter().map(|d| d.len).sum();
    assert_eq!(emitted, described);
}

#[test]
fn capacity_fault() {
    let descriptors = vec![descriptor(0x1000, 0x4000, true)];
    let mut allocator = LegacyFrameAllocator::new(descriptors);
    assert_eq!(allocator.allocate_frame(), Some(0x1000));
    // The split needs two slots; one is not enough, and nothing may be
    // silently truncated.
    let mut buffer = RegionBuffer::new(1);
    let written = allocator.construct_memory_map(&mut buffer);
    assert_eq!(written, Err(CapacityError));
    assert_eq!(buffer.len(), 0);
}

#[test]
fn twice_the_descriptor_count_always_suffices() {
    let descriptors = vec![
        descriptor(0x1000, 0x2000, true),
        descriptor(0x3000, 0x1000, false),
        descriptor(0x4000, 0x4000, true),
    ];
    let mut allocator = LegacyFrameAllocator::new(descriptors);
    assert_eq!(allocator.allocate_frame(), Some(0x1000));
    let capacity = 2 * allocator.len();
    let mut buffer = RegionBuffer::new(capacity);
    let written = allocator.construct_memory_map(&mut buffer);
    assert!(written.is_ok());
    assert!(written.unwrap() <= capacity);
}

#[test]
fn empty_descriptor_list_gives_empty_map() {
    let allocator = LegacyFrameAllocator::<MemoryDescriptor>::new(Vec::new());
    let mut buffer = RegionBuffer::new(0);
    let written = allocator.construct_memory_map(&mut buffer);
    assert_eq!(written, Ok(0));
    assert_eq!(buffer.len(), 0);
}

#[test]
fn region_buffer_checked_append() {
    let mut buffer = RegionBuffer::new(2);
    assert_eq!(buffer.capacity(), 2);
    assert_eq!(buffer.push(region(0x1000, 0x2000, MemoryRegionKind::Usable)), Ok(()));
    assert_eq!(buffer.push(region(0x2000, 0x3000, MemoryRegionKind::Reserved)), Ok(()));
    assert_eq!(
        buffer.push(region(0x3000, 0x4000, MemoryRegionKind::Bootloader)),
        Err(CapacityError)
    );
    assert_eq!(buffer.len(), 2);
    assert_eq!(buffer.get(0), region(0x1000, 0x2000, MemoryRegionKind::Usable));
    assert_eq!(buffer.get(1), region(0x2000, 0x3000, MemoryRegionKind::Reserved));
}
