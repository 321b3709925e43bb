use memflow_efi_service::frame_alloc::{
    align_addr_forward, DynamicFrameAllocator, StaticFrameAllocator, DYNAMIC_REQUEST_SIZE,
};

#[test]
fn frames_are_handed_out_from_the_top_of_the_pool() {
    let mut allocator: StaticFrameAllocator<4> = StaticFrameAllocator::new(0x20_0000);
    assert_eq!(allocator.free_count(), 4);
    assert_eq!(allocator.allocate_frame(), Some(0x20_3000));
    assert_eq!(allocator.allocate_frame(), Some(0x20_2000));
    assert_eq!(allocator.allocate_frame(), Some(0x20_1000));
    assert_eq!(allocator.allocate_frame(), Some(0x20_0000));
    assert_eq!(allocator.free_count(), 0);
}

#[test]
fn exhausted_pool_gives_none() {
    let mut allocator: StaticFrameAllocator<1> = StaticFrameAllocator::new(0x20_0000);
    assert_eq!(allocator.allocate_frame(), Some(0x20_0000));
    assert_eq!(allocator.allocate_frame(), None);
    assert_eq!(allocator.allocate_frame(), None);
}

#[test]
fn freed_frame_is_handed_out_next() {
    let mut allocator: StaticFrameAllocator<3> = StaticFrameAllocator::new(0x20_0000);
    let first = allocator.allocate_frame().unwrap();
    let second = allocator.allocate_frame().unwrap();
    assert_eq!(first, 0x20_2000);
    assert_eq!(second, 0x20_1000);
    allocator.deallocate_frame(first);
    assert_eq!(allocator.free_count(), 2);
    assert_eq!(allocator.allocate_frame(), Some(first));
    assert_eq!(allocator.allocate_frame(), Some(0x20_0000));
    assert_eq!(allocator.allocate_frame(), None);
}

#[test]
fn align_addr_forward_rounds_up_to_the_page() {
    assert_eq!(align_addr_forward(0), 0);
    assert_eq!(align_addr_forward(1), 0x1000);
    assert_eq!(align_addr_forward(0x1000), 0x1000);
    assert_eq!(align_addr_forward(0x1001), 0x2000);
    assert_eq!(align_addr_forward(0x1fff), 0x2000);
    assert_eq!(align_addr_forward(0x7fff_f123), 0x8000_0000);
}

#[test]
fn handed_out_frames_are_told_from_free_ones() {
    let mut allocator: StaticFrameAllocator<2> = StaticFrameAllocator::new(0x20_0000);
    assert!(!allocator.is_handed_out(0x20_1000));
    let frame = allocator.allocate_frame().unwrap();
    assert_eq!(frame, 0x20_1000);
    assert!(allocator.is_handed_out(0x20_1000));
    assert!(!allocator.is_handed_out(0x20_0000));
    assert!(!allocator.is_handed_out(0x20_1008));
    assert!(!allocator.is_handed_out(0x20_2000));
    assert!(!allocator.is_handed_out(0x1f_f000));
    allocator.deallocate_frame(frame);
    assert!(!allocator.is_handed_out(0x20_1000));
}

#[test]
fn dynamic_frame_starts_at_the_next_page_boundary_of_the_block() {
    let mut frames = DynamicFrameAllocator::default();
    assert_eq!(DYNAMIC_REQUEST_SIZE, 0x2000);
    assert_eq!(frames.allocate_frame(Some(0x7_0000)), Some(0x7_0000));
    assert_eq!(frames.allocate_frame(Some(0x7_0010)), Some(0x7_1000));
    assert_eq!(frames.allocate_frame(Some(0x7_0fff)), Some(0x7_1000));
    assert_eq!(frames.allocate_frame(None), None);
    assert_eq!(frames.allocate_frame(Some(0x000f_ffff_ffff_f001)), None);
    assert_eq!(frames.allocate_frame(Some(0x000f_ffff_ffff_f000)), Some(0x000f_ffff_ffff_f000));
    assert_eq!(frames.allocate_frame(Some(u64::MAX)), None);
}
