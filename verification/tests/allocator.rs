//! Behaviour of the sequential frame allocator.

use boot_frame_alloc::legacy_memory_region::LegacyFrameAllocator;
use boot_frame_alloc::legacy_memory_region::MemoryDescriptor;

fn descriptor(start: u64, len: u64, usable: bool) -> MemoryDescriptor {
    MemoryDescriptor { start, len, usable }
}

fn drain(allocator: &mut LegacyFrameAllocator<MemoryDescriptor>) -> Vec<u64> {
    let mut frames = Vec::new();
    while let Some(frame) = allocator.allocate_frame() {
        frames.push(frame);
    }
    frames
}

#[test]
fn first_frames_of_one_descriptor() {
    let descriptors = vec![descriptor(0x1000, 0x4000, true)];
    let mut allocator = LegacyFrameAllocator::new(descriptors);
    assert_eq!(allocator.allocate_frame(), Some(0x1000));
    assert_eq!(allocator.allocate_frame(), Some(0x2000));
    assert_eq!(allocator.allocate_frame(), Some(0x3000));
    assert_eq!(allocator.allocate_frame(), Some(0x4000));
    assert_eq!(allocator.allocate_frame(), None);
}

#[test]
fn monotonic_frame_order() {
    let descriptors = vec![
        descriptor(0x0, 0x3000, true),
        descriptor(0x2000, 0x6000, true),
        descriptor(0x5000, 0x1000, false),
        descriptor(0x9000, 0x2800, true),
    ];
    let mut allocator = LegacyFrameAllocator::new(descriptors);
    let frames = drain(&mut allocator);
    assert!(!frames.is_empty());
    for pair in frames.windows(2) {
        assert!(pair[0] < pair[1]);
    }
}

#[test]
fn lower_bound_respected_by_default() {
    // The descriptor claims usable memory from address zero on, but the
    // default start frame keeps the zero frame out.
    let descriptors = vec![descriptor(0x0, 0x3000, true)];
    let mut allocator = LegacyFrameAllocator::new(descriptors);
    let frames = drain(&mut allocator);
    assert_eq!(frames, vec![0x1000, 0x2000]);
    for frame in frames {
        assert!(frame >= 0x1000);
    }
}

#[test]
fn lower_bound_respected_with_explicit_start() {
    let descriptors = vec![descriptor(0x1000, 0x8000, true)];
    let mut allocator = LegacyFrameAllocator::new_starting_at(0x5000, descriptors);
    let frames = drain(&mut allocator);
    assert_eq!(frames, vec![0x5000, 0x6000, 0x7000, 0x8000]);
}

#[test]
fn unusable_descriptors_never_contribute() {
    let descriptors = vec![
        descriptor(0x1000, 0x1000, true),
        descriptor(0x2000, 0x4000, false),
        descriptor(0x6000, 0x2000, true),
    ];
    let mut allocator = LegacyFrameAllocator::new(descriptors);
    let frames = drain(&mut allocator);
    assert_eq!(frames, vec![0x1000, 0x6000, 0x7000]);
    for frame in frames {
        assert!(!(0x2000..0x6000).contains(&frame));
    }
}

#[test]
fn exhaustion_is_stable() {
    let descriptors = vec![descriptor(0x1000, 0x2000, true)];
    let mut allocator = LegacyFrameAllocator::new(descriptors);
    let frames = drain(&mut allocator);
    assert_eq!(frames, vec![0x1000, 0x2000]);
    for _ in 0..3 {
        assert_eq!(allocator.allocate_frame(), None);
    }
}

#[test]
fn empty_descriptor_list_is_exhausted() {
    let mut allocator = LegacyFrameAllocator::<MemoryDescriptor>::new(Vec::new());
    assert_eq!(allocator.allocate_frame(), None);
}

#[test]
fn zero_length_descriptor_is_skipped() {
    let descriptors = vec![descriptor(0x2000, 0, true), descriptor(0x3000, 0x1000, true)];
    let mut allocator = LegacyFrameAllocator::new(descriptors);
    let frames = drain(&mut allocator);
    assert_eq!(frames, vec![0x3000]);
}

#[test]
fn unaligned_descriptor_yields_containing_frames() {
    // [0x1800, 0x2800) touches the frames at 0x1000 and 0x2000.
    let descriptors = vec![descriptor(0x1800, 0x1000, true)];
    let mut allocator = LegacyFrameAllocator::new(descriptors);
    let frames = drain(&mut allocator);
    assert_eq!(frames, vec![0x1000, 0x2000]);
}

#[test]
fn overlapping_descriptors_never_hand_out_a_frame_twice() {
    let descriptors = vec![descriptor(0x1000, 0x2000, true), descriptor(0x2000, 0x2000, true)];
    let mut allocator = LegacyFrameAllocator::new(descriptors);
    let frames = drain(&mut allocator);
    assert_eq!(frames, vec![0x1000, 0x2000, 0x3000]);
}

#[test]
fn out_of_order_descriptors_never_rewind_the_cursor() {
    // The second descriptor lies below memory already passed by the cursor,
    // so it yields nothing.
    let descriptors = vec![descriptor(0x5000, 0x2000, true), descriptor(0x1000, 0x2000, true)];
    let mut allocator = LegacyFrameAllocator::new(descriptors);
    let frames = drain(&mut allocator);
    assert_eq!(frames, vec![0x5000, 0x6000]);
}

#[test]
fn len_counts_descriptors() {
    let descriptors = vec![
        descriptor(0x1000, 0x1000, true),
        descriptor(0x2000, 0x1000, false),
        descriptor(0x3000, 0x1000, true),
    ];
    let allocator = LegacyFrameAllocator::new(descriptors);
    assert_eq!(allocator.len(), 3);
}

#[test]
fn max_phys_addr_is_largest_descriptor_end() {
    let descriptors = vec![
        descriptor(0x1000, 0x1000, true),
        descriptor(0x100000, 0x8000, false),
        descriptor(0x4000, 0x2000, true),
    ];
    let allocator = LegacyFrameAllocator::new(descriptors);
    assert_eq!(allocator.max_phys_addr(), 0x108000);
}
