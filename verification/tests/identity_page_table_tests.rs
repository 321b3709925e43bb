use memflow_efi_service::identity_page_table::{
    IdentityPageTable, MapToError, PageTableError, POOL_FRAMES, REMAP_SIZE,
};
use memflow_efi_service::mem_maps::{EfiMemMaps, MemoryRegion};
use memflow_efi_service::phys_mem::PhysMemory;
use memflow_efi_service::vtop::virt_to_phys;

const ROOT: u64 = 0x4000_0000;

fn region(kind: u32, physical_start: u64, page_count: u64) -> MemoryRegion {
    MemoryRegion { kind, physical_start, virtual_start: 0, page_count, attributes: 0 }
}

fn snapshot(regions: &[MemoryRegion]) -> EfiMemMaps {
    let mut buffer = Vec::new();
    for r in regions {
        let mut bytes = vec![0u8; 48];
        bytes[0..4].copy_from_slice(&r.kind.to_le_bytes());
        bytes[8..16].copy_from_slice(&r.physical_start.to_le_bytes());
        bytes[16..24].copy_from_slice(&r.virtual_start.to_le_bytes());
        bytes[24..32].copy_from_slice(&r.page_count.to_le_bytes());
        bytes[32..40].copy_from_slice(&r.attributes.to_le_bytes());
        buffer.extend(bytes);
    }
    let mut maps = EfiMemMaps::new();
    assert_eq!(maps.store_descriptors(&buffer, buffer.len(), 48), Ok(()));
    maps
}

fn translate(table: &IdentityPageTable, addr: u64) -> Option<u64> {
    virt_to_phys(table.page_tables(), table.dtb_addr(), addr)
}

fn sample_regions() -> Vec<MemoryRegion> {
    vec![
        region(7, 0x1000, 0x9f),
        region(0, 0xa_0000, 0x60),
        region(7, 0x10_0000, 0x300),
        region(11, 0xfee0_0000, 1),
        region(7, 0x1_0000_0000, 0x10),
    ]
}

#[test]
fn new_table_maps_nothing_and_has_no_slots() {
    let table = IdentityPageTable::new(ROOT);
    assert_eq!(table.dtb_addr(), ROOT);
    assert_eq!(table.dtb(), ROOT);
    assert_eq!(table.free_slot_count(), 0);
    assert_eq!(table.free_frame_count(), POOL_FRAMES);
    assert_eq!(translate(&table, 0), None);
    assert_eq!(translate(&table, 0x1000), None);
    assert_eq!(translate(&table, 0xffff_8000_0000_0000), None);
}

#[test]
fn identity_mapping_translates_every_covered_address_to_itself() {
    let mut table = IdentityPageTable::new(ROOT);
    let regions = sample_regions();
    let maps = snapshot(&regions);
    assert_eq!(table.create_identity_mapping(&maps), Ok(()));
    for r in regions.iter() {
        let end = r.physical_start + r.page_count * 0x1000;
        let mut addr = r.physical_start;
        while addr < end {
            assert_eq!(translate(&table, addr), Some(addr));
            assert_eq!(translate(&table, addr + 0x7ff), Some(addr + 0x7ff));
            assert_eq!(translate(&table, addr + 0xfff), Some(addr + 0xfff));
            addr += 0x1000;
        }
    }
}

#[test]
fn identity_mapping_leaves_uncovered_addresses_unmapped() {
    let mut table = IdentityPageTable::new(ROOT);
    let maps = snapshot(&sample_regions());
    assert_eq!(table.create_identity_mapping(&maps), Ok(()));
    assert_eq!(translate(&table, 0), None);
    assert_eq!(translate(&table, 0xfff), None);
    assert_eq!(translate(&table, 0x40_0000), None);
    assert_eq!(translate(&table, 0xfee0_1000), None);
    assert_eq!(translate(&table, 0x1_0001_0000), None);
    assert_eq!(translate(&table, 0x80_0000_1000), None);
}

#[test]
fn tables_are_taken_from_the_pool() {
    let mut table = IdentityPageTable::new(ROOT);
    let maps = snapshot(&[region(7, 0x1000, 1)]);
    assert_eq!(table.create_identity_mapping(&maps), Ok(()));
    assert_eq!(table.free_frame_count(), POOL_FRAMES - 3);
    let maps = snapshot(&[region(7, 0x2000, 1), region(7, 0x20_0000, 1)]);
    assert_eq!(table.create_identity_mapping(&maps), Ok(()));
    assert_eq!(table.free_frame_count(), POOL_FRAMES - 4);
    assert_eq!(translate(&table, 0x1234), Some(0x1234));
    assert_eq!(translate(&table, 0x2abc), Some(0x2abc));
    assert_eq!(translate(&table, 0x20_0def), Some(0x20_0def));
}

#[test]
fn slots_above_the_highest_region_become_free() {
    let mut table = IdentityPageTable::new(ROOT);
    let maps = snapshot(&sample_regions());
    assert_eq!(table.create_identity_mapping(&maps), Ok(()));
    assert_eq!(table.free_slot_count(), 510);
}

#[test]
fn slots_lie_strictly_above_the_rounded_up_end_of_the_highest_region() {
    let mut table = IdentityPageTable::new(ROOT);
    let maps = snapshot(&[region(7, REMAP_SIZE - 0x2000, 2)]);
    assert_eq!(table.create_identity_mapping(&maps), Ok(()));
    assert_eq!(table.free_slot_count(), 510);
    let mut table = IdentityPageTable::new(ROOT);
    let maps = snapshot(&[region(7, REMAP_SIZE - 0x1000, 2)]);
    assert_eq!(table.create_identity_mapping(&maps), Ok(()));
    assert_eq!(table.free_slot_count(), 509);
    let mut table = IdentityPageTable::new(ROOT);
    let maps = snapshot(&[region(7, 3 * REMAP_SIZE, 1), region(7, 0x1000, 1)]);
    assert_eq!(table.create_identity_mapping(&maps), Ok(()));
    assert_eq!(table.free_slot_count(), 507);
}

#[test]
fn empty_snapshot_frees_every_slot_but_the_first() {
    let mut table = IdentityPageTable::new(ROOT);
    let maps = EfiMemMaps::new();
    assert_eq!(table.create_identity_mapping(&maps), Ok(()));
    assert_eq!(table.free_slot_count(), 511);
    assert_eq!(table.free_frame_count(), POOL_FRAMES);
}

#[test]
fn region_without_pages_maps_nothing() {
    let mut table = IdentityPageTable::new(ROOT);
    let maps = snapshot(&[region(7, 0x1234, 0), region(7, 0x5000, 1)]);
    assert_eq!(table.create_identity_mapping(&maps), Ok(()));
    assert_eq!(translate(&table, 0x1234), None);
    assert_eq!(translate(&table, 0x5000), Some(0x5000));
}

#[test]
fn overlapping_regions_fail_with_page_already_mapped() {
    let mut table = IdentityPageTable::new(ROOT);
    let second = region(0, 0x3000, 2);
    let maps = snapshot(&[region(7, 0x1000, 3), second]);
    assert_eq!(
        table.create_identity_mapping(&maps),
        Err(PageTableError::MappingFailed(second, MapToError::PageAlreadyMapped))
    );
    assert_eq!(table.free_slot_count(), 0);
    assert_eq!(translate(&table, 0x1000), Some(0x1000));
    assert_eq!(translate(&table, 0x3fff), Some(0x3fff));
}

#[test]
fn region_that_does_not_start_on_a_page_fails() {
    let mut table = IdentityPageTable::new(ROOT);
    let bad = region(7, 0x1800, 1);
    let maps = snapshot(&[bad]);
    assert_eq!(
        table.create_identity_mapping(&maps),
        Err(PageTableError::MappingFailed(bad, MapToError::IncompatibleAlignment))
    );
}

#[test]
fn region_beyond_the_lower_half_fails() {
    let mut table = IdentityPageTable::new(ROOT);
    let bad = region(7, 0x7fff_ffff_f000, 2);
    let maps = snapshot(&[region(7, 0x1000, 1), bad]);
    assert_eq!(
        table.create_identity_mapping(&maps),
        Err(PageTableError::MappingFailed(bad, MapToError::AddressOutOfRange))
    );
    assert_eq!(translate(&table, 0x1000), Some(0x1000));
    let mut table = IdentityPageTable::new(ROOT);
    let huge = region(7, 0x1000, u64::MAX);
    let maps = snapshot(&[huge]);
    assert_eq!(
        table.create_identity_mapping(&maps),
        Err(PageTableError::MappingFailed(huge, MapToError::AddressOutOfRange))
    );
    let mut table = IdentityPageTable::new(ROOT);
    let maps = snapshot(&[region(7, 0x7fff_ffff_f000, 1)]);
    assert_eq!(table.create_identity_mapping(&maps), Ok(()));
    assert_eq!(translate(&table, 0x7fff_ffff_ffff), Some(0x7fff_ffff_ffff));
    assert_eq!(table.free_slot_count(), 255);
}

#[test]
fn exhausted_pool_fails_with_frame_allocation_failed() {
    let mut table = IdentityPageTable::new(ROOT);
    let mut regions = Vec::new();
    for i in 0..1024u64 {
        regions.push(region(7, i * 0x20_0000, 1));
    }
    let mut mapped = 0u64;
    let mut failed = None;
    for round in 0..12u64 {
        let shifted: Vec<MemoryRegion> = regions
            .iter()
            .map(|r| region(7, r.physical_start + round * 1024 * 0x20_0000, 1))
            .collect();
        let maps = snapshot(&shifted);
        match table.create_identity_mapping(&maps) {
            Ok(()) => mapped += 1024,
            Err(error) => {
                failed = Some(error);
                break;
            }
        }
    }
    assert_eq!(mapped, 9 * 1024);
    match failed {
        Some(PageTableError::MappingFailed(r, MapToError::FrameAllocationFailed)) => {
            assert_eq!(r.page_count, 1);
            assert_eq!(translate(&table, r.physical_start), None);
        }
        other => panic!("unexpected outcome {:?}", other),
    }
    assert_eq!(table.free_frame_count(), 0);
    assert_eq!(translate(&table, 0), Some(0));
    assert_eq!(translate(&table, 0x20_0000), Some(0x20_0000));
}

#[test]
fn map_page_reports_each_cause() {
    let mut table = IdentityPageTable::new(ROOT);
    assert_eq!(table.map_page(0x5000, 0x9000), Ok(()));
    assert_eq!(translate(&table, 0x5123), Some(0x9123));
    assert_eq!(table.map_page(0x5000, 0xa000), Err(MapToError::PageAlreadyMapped));
    assert_eq!(translate(&table, 0x5123), Some(0x9123));
    let foreign = PhysMemory::from_words(0x9000_0000, vec![0x9000_1000 | 0x3; 512]);
    let maps = EfiMemMaps::new();
    assert_eq!(table.create_identity_mapping(&maps), Ok(()));
    let (handle, _) = table.remap_range(0x7000_0000_0000, 0x1000, &foreign, 0x9000_0000).unwrap();
    let slot = *handle.deref() as u64;
    assert_eq!(
        table.map_page(slot * REMAP_SIZE, 0x1000),
        Err(MapToError::TableOutOfReach)
    );
    let huge = PhysMemory::from_words(0x9000_0000, vec![0x4000_0000 | 0x83; 512]);
    assert_eq!(table.copy_pml4_entries(&huge, 0x9000_0000), Ok(()));
    assert_eq!(
        table.map_page(0xffff_8000_0000_0000, 0x1000),
        Err(MapToError::ParentEntryHugePage)
    );
}

#[test]
fn map_to_virt_maps_the_pages_that_the_range_touches() {
    let mut table = IdentityPageTable::new(ROOT);
    assert_eq!(table.map_to_virt(0x12_3400, 0xffff_f800_0000_0400, 0x2000), Ok(()));
    assert_eq!(translate(&table, 0xffff_f800_0000_0000), Some(0x12_3000));
    assert_eq!(translate(&table, 0xffff_f800_0000_0400), Some(0x12_3400));
    assert_eq!(translate(&table, 0xffff_f800_0000_2fff), Some(0x12_5fff));
    assert_eq!(translate(&table, 0xffff_f800_0000_3000), None);
    assert_eq!(translate(&table, 0xffff_f7ff_ffff_f000), None);
}

#[test]
fn map_to_virt_refuses_offsets_that_are_not_page_aligned() {
    let mut table = IdentityPageTable::new(ROOT);
    assert_eq!(
        table.map_to_virt(0x12_3400, 0x5000_0000, 0x1000),
        Err(MapToError::IncompatibleAlignment)
    );
    assert_eq!(table.free_frame_count(), POOL_FRAMES);
}

#[test]
fn map_to_virt_refuses_ranges_beyond_the_address_space() {
    let mut table = IdentityPageTable::new(ROOT);
    assert_eq!(
        table.map_to_virt(0x000f_ffff_ffff_f000, 0x1000, 0x1001),
        Err(MapToError::AddressOutOfRange)
    );
    assert_eq!(
        table.map_to_virt(0x1000, 0xffff_ffff_ffff_f000, 0x1001),
        Err(MapToError::AddressOutOfRange)
    );
    assert_eq!(table.map_to_virt(0x1000, 0xffff_ffff_ffff_f000, 0x1000), Ok(()));
    assert_eq!(translate(&table, 0xffff_ffff_ffff_ffff), Some(0x1fff));
    assert_eq!(table.map_to_virt(0x2000, 0x1000, 0), Ok(()));
    assert_eq!(translate(&table, 0x1000), None);
}

#[test]
fn map_to_virt_passes_over_a_page_that_cannot_be_mapped() {
    let mut table = IdentityPageTable::new(ROOT);
    assert_eq!(table.map_page(0x7000, 0x7000), Ok(()));
    assert_eq!(table.map_to_virt(0x5000, 0x5000, 0x4000), Ok(()));
    assert_eq!(translate(&table, 0x5000), Some(0x5000));
    assert_eq!(translate(&table, 0x6000), Some(0x6000));
    assert_eq!(translate(&table, 0x7abc), Some(0x7abc));
    assert_eq!(translate(&table, 0x8fff), Some(0x8fff));
    assert_eq!(translate(&table, 0x9000), None);
}

#[test]
fn map_to_virt_leaves_a_page_that_is_mapped_already_as_it_is() {
    let mut table = IdentityPageTable::new(ROOT);
    assert_eq!(table.map_page(0x7000_2000, 0x9000), Ok(()));
    assert_eq!(table.map_to_virt(0x1000, 0x7000_1000, 0x3000), Ok(()));
    assert_eq!(translate(&table, 0x7000_1000), Some(0x1000));
    assert_eq!(translate(&table, 0x7000_2123), Some(0x9123));
    assert_eq!(translate(&table, 0x7000_3fff), Some(0x3fff));
    assert_eq!(translate(&table, 0x7000_4000), None);
}

#[test]
fn remap_range_across_a_slot_boundary_is_unaligned() {
    let foreign = PhysMemory::new(0x9000_0000, 1);
    let mut table = IdentityPageTable::new(ROOT);
    assert!(matches!(
        table.remap_range(REMAP_SIZE - 0x800, 0x1000, &foreign, 0x9000_0000),
        Err(PageTableError::Unaligned)
    ));
    let maps = snapshot(&sample_regions());
    assert_eq!(table.create_identity_mapping(&maps), Ok(()));
    assert_eq!(table.free_slot_count(), 510);
    assert!(matches!(
        table.remap_range(REMAP_SIZE - 0x800, 0x1000, &foreign, 0x9000_0000),
        Err(PageTableError::Unaligned)
    ));
    assert!(matches!(
        table.remap_range(5 * REMAP_SIZE - 1, 1, &foreign, 0x9000_0000),
        Err(PageTableError::Unaligned)
    ));
    assert!(matches!(
        table.remap_range(u64::MAX - 0x10, 0x100, &foreign, 0x9000_0000),
        Err(PageTableError::Unaligned)
    ));
    assert_eq!(table.free_slot_count(), 510);
}

#[test]
fn remap_range_without_a_free_slot_fails() {
    let foreign = PhysMemory::new(0x9000_0000, 1);
    let mut table = IdentityPageTable::new(ROOT);
    assert!(matches!(
        table.remap_range(0x7000_0000_1000, 0x1000, &foreign, 0x9000_0000),
        Err(PageTableError::NoFreeSlot)
    ));
}

#[test]
fn remap_range_copies_the_foreign_entry_into_the_slot() {
    let mut foreign = PhysMemory::new(0x9000_0000, 1);
    let virt: u64 = 0x0000_7f12_3456_7abc;
    let index = (virt >> 39) & 0x1ff;
    assert!(foreign.write(0x9000_0000 + 8 * index, 0x0000_0001_2345_6067));
    let mut table = IdentityPageTable::new(ROOT);
    let maps = snapshot(&sample_regions());
    assert_eq!(table.create_identity_mapping(&maps), Ok(()));
    let (handle, remapped) = table.remap_range(virt, 0x100, &foreign, 0x9000_0000).unwrap();
    let slot = *handle.deref() as u64;
    assert_eq!(slot, 511);
    assert_eq!(remapped, slot * REMAP_SIZE + virt % REMAP_SIZE);
    assert_eq!(remapped, 0x0000_ff92_3456_7abc);
    assert_eq!(table.page_tables().read(ROOT + 8 * slot), 0x0000_0001_2345_6067);
    assert_eq!(table.free_slot_count(), 509);
    assert_eq!(translate(&table, 0x1000), Some(0x1000));
    assert_eq!(translate(&table, 0x1_0000_0000), Some(0x1_0000_0000));
    let (second, other) = table.remap_range(0x2000, 0x10, &foreign, 0x9000_0000).unwrap();
    assert_eq!(*second.deref(), 510);
    assert_eq!(other, 510 * REMAP_SIZE + 0x2000);
    assert_eq!(table.page_tables().read(ROOT + 8 * 510), 0);
    assert!(table.release(handle));
    assert!(table.release(second));
    assert_eq!(table.free_slot_count(), 510);
}

#[test]
fn remap_entry_stores_the_given_entry() {
    let mut table = IdentityPageTable::new(ROOT);
    let maps = EfiMemMaps::new();
    assert_eq!(table.create_identity_mapping(&maps), Ok(()));
    let (handle, remapped) = table.remap_entry(0x1234, 0x10, 0xabc0_0003).unwrap();
    assert_eq!(*handle.deref(), 511);
    assert_eq!(remapped, 511 * REMAP_SIZE + 0x1234);
    assert_eq!(table.page_tables().read(ROOT + 8 * 511), 0xabc0_0003);
    assert_eq!(IdentityPageTable::root_entry_address(0x9000_0018, 0x80_0000_0000), 0x9000_0008);
}

#[test]
fn released_slot_is_lent_again() {
    let foreign = PhysMemory::new(0x9000_0000, 1);
    let mut table = IdentityPageTable::new(ROOT);
    let maps = snapshot(&sample_regions());
    assert_eq!(table.create_identity_mapping(&maps), Ok(()));
    let (handle, _) = table.remap_range(0x5000, 0x10, &foreign, 0x9000_0000).unwrap();
    let slot = *handle.deref();
    assert!(table.release(handle));
    assert_eq!(table.free_slot_count(), 510);
    let (handle, _) = table.remap_range(0x6000, 0x10, &foreign, 0x9000_0000).unwrap();
    assert_eq!(*handle.deref(), slot);
    assert!(table.release(handle));
}

#[test]
fn slot_that_is_free_already_is_not_taken_back() {
    let foreign = PhysMemory::new(0x9000_0000, 1);
    let mut table = IdentityPageTable::new(ROOT);
    let mut other = IdentityPageTable::new(ROOT);
    let maps = snapshot(&sample_regions());
    assert_eq!(table.create_identity_mapping(&maps), Ok(()));
    assert_eq!(other.create_identity_mapping(&maps), Ok(()));
    let (stray, _) = other.remap_range(0x5000, 0x10, &foreign, 0x9000_0000).unwrap();
    assert!(!table.release(stray));
    assert_eq!(table.free_slot_count(), 510);
}

#[test]
fn all_slots_can_be_lent_and_returned() {
    let foreign = PhysMemory::new(0x9000_0000, 1);
    let mut table = IdentityPageTable::new(ROOT);
    let maps = snapshot(&sample_regions());
    assert_eq!(table.create_identity_mapping(&maps), Ok(()));
    let mut handles = Vec::new();
    let mut seen = Vec::new();
    while let Ok((handle, _)) = table.remap_range(0x5000, 0x10, &foreign, 0x9000_0000) {
        assert!(!seen.contains(handle.deref()));
        seen.push(*handle.deref());
        handles.push(handle);
    }
    assert_eq!(handles.len(), 510);
    assert_eq!(table.free_slot_count(), 0);
    for handle in handles {
        assert!(table.release(handle));
    }
    assert_eq!(table.free_slot_count(), 510);
    seen.sort();
    assert_eq!(seen, (2..512).collect::<Vec<usize>>());
}

#[test]
fn copy_pml4_entries_copies_the_upper_half() {
    let mut words = Vec::new();
    for i in 0..512u64 {
        words.push(0x1000 * (i + 1) | 0x3);
    }
    let foreign = PhysMemory::from_words(0x9000_0000, words);
    let mut table = IdentityPageTable::new(ROOT);
    let maps = snapshot(&sample_regions());
    assert_eq!(table.create_identity_mapping(&maps), Ok(()));
    let low = table.page_tables().read(ROOT);
    assert_eq!(table.copy_pml4_entries(&foreign, 0x9000_0000), Ok(()));
    assert_eq!(table.page_tables().read(ROOT), low);
    assert_eq!(table.page_tables().read(ROOT + 8 * 255), 0);
    for i in 256..512u64 {
        assert_eq!(table.page_tables().read(ROOT + 8 * i), 0x1000 * (i + 1) | 0x3);
    }
    assert_eq!(translate(&table, 0x1000), Some(0x1000));
    assert_eq!(table.free_slot_count(), 510);
}

#[test]
fn copy_pml4_entries_twice_changes_nothing_more() {
    let foreign = PhysMemory::from_words(0x9000_0000, vec![0x7777_7003; 512]);
    let mut table = IdentityPageTable::new(ROOT);
    assert_eq!(table.copy_pml4_entries(&foreign, 0x9000_0000), Ok(()));
    let once: Vec<u64> = (0..512u64).map(|i| table.page_tables().read(ROOT + 8 * i)).collect();
    assert_eq!(table.copy_pml4_entries(&foreign, 0x9000_0000), Ok(()));
    let twice: Vec<u64> = (0..512u64).map(|i| table.page_tables().read(ROOT + 8 * i)).collect();
    assert_eq!(once, twice);
    assert_eq!(once[255], 0);
    assert_eq!(once[256], 0x7777_7003);
}

#[test]
fn entries_on_the_way_are_present_and_writable() {
    let mut table = IdentityPageTable::new(ROOT);
    assert_eq!(table.map_page(0x5000, 0x9000), Ok(()));
    let pool = ROOT + 0x1000;
    let upper = pool + 0x1000 * (POOL_FRAMES as u64 - 1);
    let directory = upper - 0x1000;
    let page_table = directory - 0x1000;
    let memory = table.page_tables();
    assert_eq!(memory.read(ROOT), upper | 0x3);
    assert_eq!(memory.read(upper), directory | 0x3);
    assert_eq!(memory.read(directory), page_table | 0x3);
    assert_eq!(memory.read(page_table + 8 * 5), 0x9000 | 0x3);
    assert_eq!(memory.read(page_table), 0);
    assert_eq!(table.free_frame_count(), POOL_FRAMES - 3);
}

#[test]
fn slot_below_the_first_remapping_slot_is_not_taken() {
    let foreign = PhysMemory::new(0x9000_0000, 1);
    let mut donor = IdentityPageTable::new(ROOT);
    assert_eq!(donor.create_identity_mapping(&EfiMemMaps::new()), Ok(()));
    let mut lowest = None;
    while let Ok((handle, _)) = donor.remap_range(0x5000, 0x10, &foreign, 0x9000_0000) {
        lowest = Some(handle);
    }
    let lowest = lowest.unwrap();
    assert_eq!(*lowest.deref(), 1);
    let mut table = IdentityPageTable::new(ROOT);
    let maps = snapshot(&sample_regions());
    assert_eq!(table.create_identity_mapping(&maps), Ok(()));
    let before = table.page_tables().read(ROOT);
    assert!(!table.release(lowest));
    assert_eq!(table.free_slot_count(), 510);
    let (handle, _) = table.remap_range(0x5000, 0x10, &foreign, 0x9000_0000).unwrap();
    assert_eq!(*handle.deref(), 511);
    assert_eq!(table.page_tables().read(ROOT), before);
    assert_eq!(translate(&table, 0x1000), Some(0x1000));
}

#[test]
fn identity_mapping_survives_remapping_and_the_copy_of_the_upper_half() {
    let foreign = PhysMemory::from_words(0x9000_0000, vec![0x5555_5003; 512]);
    let mut table = IdentityPageTable::new(ROOT);
    let regions = sample_regions();
    let maps = snapshot(&regions);
    assert_eq!(table.create_identity_mapping(&maps), Ok(()));
    assert_eq!(table.copy_pml4_entries(&foreign, 0x9000_0000), Ok(()));
    let mut handles = Vec::new();
    while let Ok((handle, _)) = table.remap_range(0x7f12_3456_7000, 0x10, &foreign, 0x9000_0000) {
        handles.push(handle);
    }
    assert_eq!(handles.len(), 510);
    for r in regions.iter() {
        let last = r.physical_start + r.page_count * 0x1000 - 1;
        assert_eq!(translate(&table, r.physical_start), Some(r.physical_start));
        assert_eq!(translate(&table, last), Some(last));
    }
    for handle in handles {
        assert!(table.release(handle));
    }
    assert_eq!(translate(&table, 0x1000), Some(0x1000));
}

#[test]
fn region_takes_three_tables_and_one_more_at_each_boundary() {
    let mut table = IdentityPageTable::new(ROOT);
    let maps = snapshot(&[region(7, 0x1f_f000, 2)]);
    assert_eq!(table.create_identity_mapping(&maps), Ok(()));
    assert_eq!(table.free_frame_count(), POOL_FRAMES - 4);
    let mut table = IdentityPageTable::new(ROOT);
    let maps = snapshot(&[region(7, 0x3fe0_0000, 1024)]);
    assert_eq!(table.create_identity_mapping(&maps), Ok(()));
    assert_eq!(table.free_frame_count(), POOL_FRAMES - (3 + 1 + 1));
    assert_eq!(translate(&table, 0x3fff_ffff), Some(0x3fff_ffff));
    assert_eq!(translate(&table, 0x4000_0000), Some(0x4000_0000));
    assert_eq!(translate(&table, 0x401f_ffff), Some(0x401f_ffff));
    assert_eq!(translate(&table, 0x4020_0000), None);
    let mut table = IdentityPageTable::new(ROOT);
    let maps = snapshot(&[region(7, 0x20_0000, 512), region(7, 0x8000_0000, 513)]);
    assert_eq!(table.create_identity_mapping(&maps), Ok(()));
    assert_eq!(table.free_frame_count(), POOL_FRAMES - 3 - 3);
}

#[test]
fn entry_that_cannot_be_followed_gets_the_table_flags_all_the_same() {
    let mut table = IdentityPageTable::new(ROOT);
    let huge = PhysMemory::from_words(0x9000_0000, vec![0x4000_0080; 512]);
    assert_eq!(table.copy_pml4_entries(&huge, 0x9000_0000), Ok(()));
    assert_eq!(table.page_tables().read(ROOT + 8 * 256), 0x4000_0080);
    assert_eq!(
        table.map_page(0xffff_8000_0000_0000, 0x1000),
        Err(MapToError::ParentEntryHugePage)
    );
    assert_eq!(table.page_tables().read(ROOT + 8 * 256), 0x4000_0083);
    assert_eq!(table.page_tables().read(ROOT + 8 * 257), 0x4000_0080);
    let far = PhysMemory::from_words(0x9000_0000, vec![0x9000_1000; 512]);
    assert_eq!(table.copy_pml4_entries(&far, 0x9000_0000), Ok(()));
    assert_eq!(
        table.map_page(0xffff_8080_0000_0000, 0x1000),
        Err(MapToError::TableOutOfReach)
    );
    assert_eq!(table.page_tables().read(ROOT + 8 * 257), 0x9000_1003);
    assert_eq!(table.free_frame_count(), POOL_FRAMES);
}
