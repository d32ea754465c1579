use kernel::memory::{BootInfoFrameAllocator, EmptyFrameAllocator, PhysRegion};

#[test]
fn empty_frame_allocator_has_no_frame() {
    let mut f = EmptyFrameAllocator;
    assert_eq!(f.allocate_frame(), None);
    assert_eq!(f.allocate_frame(), None);
}

#[test]
fn boot_info_frames_walk_usable_regions_in_order() {
    let regions = vec![
        PhysRegion { start: 0x0, end: 0x2000, usable: false },
        PhysRegion { start: 0x10000, end: 0x12000, usable: true },
        PhysRegion { start: 0x20000, end: 0x20800, usable: true },
        PhysRegion { start: 0x30000, end: 0x30000, usable: true },
        PhysRegion { start: 0x40000, end: 0x41001, usable: true },
    ];
    let mut f = BootInfoFrameAllocator::new(regions);
    assert_eq!(f.allocate_frame(), Some(0x10000));
    assert_eq!(f.allocate_frame(), Some(0x11000));
    assert_eq!(f.allocate_frame(), Some(0x20000));
    assert_eq!(f.allocate_frame(), Some(0x40000));
    assert_eq!(f.allocate_frame(), Some(0x41000));
    assert_eq!(f.allocate_frame(), None);
    assert_eq!(f.allocate_frame(), None);
}

#[test]
fn boot_info_frames_with_no_usable_region() {
    let regions = vec![PhysRegion { start: 0x0, end: 0x10000, usable: false }];
    let mut f = BootInfoFrameAllocator::new(regions);
    assert_eq!(f.allocate_frame(), None);
}
