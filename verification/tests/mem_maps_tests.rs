use memflow_efi_service::mem_maps::{
    parse_descriptor, EfiMemMaps, LoadEvent, LoadState, MemMapError, MemoryRegion,
    CONVENTIONAL_MEMORY,
};

fn descriptor(kind: u32, physical_start: u64, page_count: u64, stride: usize) -> Vec<u8> {
    let mut bytes = vec![0u8; stride];
    bytes[0..4].copy_from_slice(&kind.to_le_bytes());
    bytes[8..16].copy_from_slice(&physical_start.to_le_bytes());
    bytes[16..24].copy_from_slice(&(physical_start ^ 0xffff_8000_0000_0000).to_le_bytes());
    bytes[24..32].copy_from_slice(&page_count.to_le_bytes());
    bytes[32..40].copy_from_slice(&0x8000_0000_0000_000fu64.to_le_bytes());
    bytes
}

fn sample_buffer(stride: usize) -> Vec<u8> {
    let mut buffer = Vec::new();
    buffer.extend(descriptor(7, 0x1000, 0x9f, stride));
    buffer.extend(descriptor(0, 0xa_0000, 0x60, stride));
    buffer.extend(descriptor(7, 0x10_0000, 0x100, stride));
    buffer.extend(descriptor(11, 0xfee0_0000, 1, stride));
    buffer
}

fn sample_maps() -> EfiMemMaps {
    let mut maps = EfiMemMaps::new();
    let buffer = sample_buffer(48);
    assert_eq!(maps.store_descriptors(&buffer, buffer.len(), 48), Ok(()));
    maps
}

#[test]
fn new_snapshot_is_empty() {
    let maps = EfiMemMaps::new();
    assert_eq!(maps.len(), 0);
    assert!(maps.iter().is_empty());
    assert!(!maps.is_mapped(0));
    assert!(!maps.is_mapped(0x1000));
}

#[test]
fn descriptor_fields_are_read_at_their_offsets() {
    let mut bytes = vec![0xeeu8; 8];
    bytes.extend(descriptor(0x0102_0304, 0x1122_3344_5566_7788, 0x0a0b_0c0d, 40));
    let region = parse_descriptor(&bytes, 8);
    assert_eq!(
        region,
        MemoryRegion {
            kind: 0x0102_0304,
            physical_start: 0x1122_3344_5566_7788,
            virtual_start: 0x1122_3344_5566_7788 ^ 0xffff_8000_0000_0000,
            page_count: 0x0a0b_0c0d,
            attributes: 0x8000_0000_0000_000f,
        }
    );
}

#[test]
fn descriptors_are_stored_in_platform_order() {
    let maps = sample_maps();
    assert_eq!(maps.len(), 4);
    let regions = maps.iter();
    assert_eq!(regions[0].kind, 7);
    assert_eq!(regions[0].physical_start, 0x1000);
    assert_eq!(regions[0].page_count, 0x9f);
    assert_eq!(regions[1].kind, 0);
    assert_eq!(regions[1].physical_start, 0xa_0000);
    assert_eq!(regions[2].physical_start, 0x10_0000);
    assert_eq!(regions[3].kind, 11);
    assert_eq!(regions[3].physical_start, 0xfee0_0000);
    assert_eq!(regions[3].attributes, 0x8000_0000_0000_000f);
}

#[test]
fn stride_may_equal_the_descriptor_size() {
    let mut maps = EfiMemMaps::new();
    let buffer = sample_buffer(40);
    assert_eq!(maps.store_descriptors(&buffer, buffer.len(), 40), Ok(()));
    assert_eq!(maps.len(), 4);
    assert_eq!(maps.iter()[2].page_count, 0x100);
}

#[test]
fn only_whole_descriptors_within_the_reported_size_count() {
    let mut maps = EfiMemMaps::new();
    let buffer = sample_buffer(48);
    assert_eq!(maps.store_descriptors(&buffer, 48 * 2 + 47, 48), Ok(()));
    assert_eq!(maps.len(), 2);
}

#[test]
fn is_mapped_is_true_inside_usable_regions() {
    let maps = sample_maps();
    assert!(maps.is_mapped(0x1000));
    assert!(maps.is_mapped(0x1000 + 0x9f * 0x1000 - 1));
    assert!(maps.is_mapped(0x10_0000));
    assert!(maps.is_mapped(0x1f_ffff));
    assert!(maps.is_mapped(0x12_3456));
}

#[test]
fn is_mapped_is_false_outside_all_regions() {
    let maps = sample_maps();
    assert!(!maps.is_mapped(0));
    assert!(!maps.is_mapped(0xfff));
    assert!(!maps.is_mapped(0x20_0000));
    assert!(!maps.is_mapped(u64::MAX));
}

#[test]
fn is_mapped_is_false_inside_regions_that_are_not_usable() {
    let maps = sample_maps();
    assert!(!maps.is_mapped(0xa_0000));
    assert!(!maps.is_mapped(0xf_ffff));
    assert!(!maps.is_mapped(0xfee0_0000));
    assert!(!maps.is_mapped(0xfee0_0fff));
}

#[test]
fn region_end_is_exclusive() {
    let region = MemoryRegion {
        kind: CONVENTIONAL_MEMORY,
        physical_start: 0x4000,
        virtual_start: 0,
        page_count: 2,
        attributes: 0,
    };
    assert!(region.is_usable());
    assert!(!region.contains(0x3fff));
    assert!(region.contains(0x4000));
    assert!(region.contains(0x5fff));
    assert!(!region.contains(0x6000));
}

#[test]
fn region_that_reaches_the_end_of_the_address_space_does_not_wrap() {
    let region = MemoryRegion {
        kind: CONVENTIONAL_MEMORY,
        physical_start: 0xffff_ffff_ffff_0000,
        virtual_start: 0,
        page_count: 0x100,
        attributes: 0,
    };
    assert!(region.contains(u64::MAX));
    assert!(region.contains(0xffff_ffff_ffff_0000));
    assert!(!region.contains(0));
    assert!(!region.contains(0xffff_ffff_fffe_ffff));
}

#[test]
fn empty_region_covers_nothing() {
    let region = MemoryRegion {
        kind: CONVENTIONAL_MEMORY,
        physical_start: 0x4000,
        virtual_start: 0,
        page_count: 0,
        attributes: 0,
    };
    assert!(!region.contains(0x4000));
}

#[test]
fn stride_below_the_descriptor_size_is_a_failed_query() {
    let mut maps = sample_maps();
    let buffer = sample_buffer(48);
    assert_eq!(maps.store_descriptors(&buffer, buffer.len(), 39), Err(MemMapError::QueryFailed));
    assert_eq!(maps.store_descriptors(&buffer, buffer.len(), 0), Err(MemMapError::QueryFailed));
    assert_eq!(maps.len(), 4);
}

#[test]
fn reported_size_beyond_the_buffer_is_a_failed_query() {
    let mut maps = EfiMemMaps::new();
    let buffer = sample_buffer(48);
    assert_eq!(
        maps.store_descriptors(&buffer, buffer.len() + 1, 48),
        Err(MemMapError::QueryFailed)
    );
    assert_eq!(maps.len(), 0);
}

#[test]
fn more_than_1024_descriptors_exceed_the_capacity() {
    let mut maps = sample_maps();
    let buffer = vec![0u8; 40 * 1025];
    assert_eq!(
        maps.store_descriptors(&buffer, buffer.len(), 40),
        Err(MemMapError::CapacityExceeded)
    );
    assert_eq!(maps.len(), 4);
    assert_eq!(maps.store_descriptors(&buffer, 40 * 1024, 40), Ok(()));
    assert_eq!(maps.len(), 1024);
}

#[test]
fn capture_goes_through_query_allocate_fill_release() {
    let mut maps = EfiMemMaps::new();
    let state = EfiMemMaps::begin_load();
    assert_eq!(state, LoadState::QuerySize);
    let state = maps.load_maps(
        state,
        LoadEvent::SizeReply { buffer_too_small: true, map_size: 192 },
    );
    assert_eq!(state, LoadState::Allocate { size: 192 + 0x1000 });
    let state = maps.load_maps(state, LoadEvent::Allocated { ok: true });
    assert_eq!(state, LoadState::Fill { size: 192 + 0x1000 });
    let mut buffer = sample_buffer(48);
    buffer.resize(192 + 0x1000, 0);
    let state = maps.load_maps(
        state,
        LoadEvent::Filled { ok: true, map_size: 192, descriptor_size: 48, buffer },
    );
    assert_eq!(state, LoadState::Release);
    assert_eq!(maps.len(), 4);
    let state = maps.load_maps(state, LoadEvent::Released { ok: true });
    assert_eq!(state, LoadState::Loaded);
    assert!(maps.is_mapped(0x10_0000));
    let state = maps.load_maps(state, LoadEvent::Released { ok: false });
    assert_eq!(state, LoadState::Loaded);
}

#[test]
fn first_query_that_does_not_report_buffer_too_small_fails_the_capture() {
    let mut maps = EfiMemMaps::new();
    let state = maps.load_maps(
        LoadState::QuerySize,
        LoadEvent::SizeReply { buffer_too_small: false, map_size: 192 },
    );
    assert_eq!(state, LoadState::Failed(MemMapError::QueryFailed));
    let state = maps.load_maps(state, LoadEvent::Allocated { ok: true });
    assert_eq!(state, LoadState::Failed(MemMapError::QueryFailed));
}

#[test]
fn buffer_that_cannot_be_acquired_fails_the_capture() {
    let mut maps = EfiMemMaps::new();
    let state = maps.load_maps(LoadState::Allocate { size: 0x2000 }, LoadEvent::Allocated { ok: false });
    assert_eq!(state, LoadState::Failed(MemMapError::AllocationFailed));
    let state = maps.load_maps(
        LoadState::QuerySize,
        LoadEvent::SizeReply { buffer_too_small: true, map_size: usize::MAX - 0xfff },
    );
    assert_eq!(state, LoadState::Failed(MemMapError::AllocationFailed));
    let state = maps.load_maps(
        LoadState::QuerySize,
        LoadEvent::SizeReply { buffer_too_small: true, map_size: usize::MAX - 0x1000 },
    );
    assert_eq!(state, LoadState::Allocate { size: usize::MAX });
}

#[test]
fn second_query_that_fails_leaves_the_snapshot_as_it_was() {
    let mut maps = sample_maps();
    let state = maps.load_maps(
        LoadState::Fill { size: 0x2000 },
        LoadEvent::Filled { ok: false, map_size: 48, descriptor_size: 48, buffer: vec![0u8; 48] },
    );
    assert_eq!(state, LoadState::Failed(MemMapError::QueryFailed));
    assert_eq!(maps.len(), 4);
}

#[test]
fn too_many_descriptors_fail_the_capture() {
    let mut maps = EfiMemMaps::new();
    let state = maps.load_maps(
        LoadState::Fill { size: 40 * 1025 },
        LoadEvent::Filled {
            ok: true,
            map_size: 40 * 1025,
            descriptor_size: 40,
            buffer: vec![0u8; 40 * 1025],
        },
    );
    assert_eq!(state, LoadState::Failed(MemMapError::CapacityExceeded));
    assert_eq!(maps.len(), 0);
}

#[test]
fn buffer_that_cannot_be_released_fails_the_capture_after_the_store() {
    let mut maps = EfiMemMaps::new();
    let buffer = sample_buffer(48);
    let state = maps.load_maps(
        LoadState::Fill { size: 192 },
        LoadEvent::Filled { ok: true, map_size: 192, descriptor_size: 48, buffer },
    );
    assert_eq!(state, LoadState::Release);
    let state = maps.load_maps(state, LoadEvent::Released { ok: false });
    assert_eq!(state, LoadState::Failed(MemMapError::AllocationFailed));
    assert_eq!(maps.len(), 4);
}

#[test]
fn answer_that_does_not_belong_to_the_state_fails_the_capture() {
    let mut maps = EfiMemMaps::new();
    let state = maps.load_maps(LoadState::QuerySize, LoadEvent::Allocated { ok: true });
    assert_eq!(state, LoadState::Failed(MemMapError::QueryFailed));
    let state = maps.load_maps(LoadState::Release, LoadEvent::Allocated { ok: true });
    assert_eq!(state, LoadState::Failed(MemMapError::QueryFailed));
}
