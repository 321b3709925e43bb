use memflow_efi_service::phys_mem::PhysMemory;
use memflow_efi_service::vtop::{
    as_page_aligned, check_entry, get_bit, is_large_page, is_prototype_page, is_transition_page,
    is_writeable_page, make_bit_mask, pd_index_bits, pdpte_index_bits, pml4_index_bits,
    pt_index_bits, virt_to_phys, walk_tables, PageWalk, Walk, WalkStep,
};

const BASE: u64 = 0x10_0000;
const PML4: u64 = BASE;
const PDPT: u64 = BASE + 0x1000;
const PD: u64 = BASE + 0x2000;
const PT: u64 = BASE + 0x3000;
const VADDR: u64 = 0x0000_7f12_3456_7abc;

fn index(addr: u64, shift: u32) -> u64 {
    (addr >> shift) & 0x1ff
}

fn tables() -> PhysMemory {
    PhysMemory::new(BASE, 4)
}

fn link_down_to_directory(mem: &mut PhysMemory) {
    assert!(mem.write(PML4 + 8 * index(VADDR, 39), PDPT | 0x3));
    assert!(mem.write(PDPT + 8 * index(VADDR, 30), PD | 0x3));
}

#[test]
fn make_bit_mask_selects_the_bits() {
    assert_eq!(make_bit_mask(12, 51), 0x000f_ffff_ffff_f000);
    assert_eq!(make_bit_mask(0, 11), 0xfff);
    assert_eq!(make_bit_mask(0, 20), 0x1f_ffff);
    assert_eq!(make_bit_mask(0, 29), 0x3fff_ffff);
    assert_eq!(make_bit_mask(21, 51), 0x000f_ffff_ffe0_0000);
    assert_eq!(make_bit_mask(30, 51), 0x000f_ffff_c000_0000);
    assert_eq!(make_bit_mask(39, 47), 0x0000_ff80_0000_0000);
    assert_eq!(make_bit_mask(0, 63), u64::MAX);
    assert_eq!(make_bit_mask(63, 63), 0x8000_0000_0000_0000);
    assert_eq!(make_bit_mask(7, 7), 0x80);
}

#[test]
fn make_bit_mask_is_empty_when_the_bounds_cross() {
    assert_eq!(make_bit_mask(5, 4), 0);
    assert_eq!(make_bit_mask(63, 0), 0);
}

#[test]
fn entry_bits_sit_at_their_positions() {
    assert!(check_entry(0x1));
    assert!(!check_entry(0x2));
    assert!(is_writeable_page(0x2));
    assert!(!is_writeable_page(0x1));
    assert!(is_large_page(0x80));
    assert!(!is_large_page(0x40));
    assert!(is_prototype_page(0x400));
    assert!(!is_prototype_page(0x800));
    assert!(is_transition_page(0x800));
    assert!(!is_transition_page(0x400));
    assert!(get_bit(0x8000_0000_0000_0000, 63));
    assert!(!get_bit(0x7fff_ffff_ffff_ffff, 63));
}

#[test]
fn pseudo_entries_without_present_bit_are_not_usable() {
    assert!(!check_entry(0x800));
    assert!(!check_entry(0x400));
    assert!(!check_entry(0xc00));
    assert!(check_entry(0x801));
}

#[test]
fn index_bits_are_byte_offsets_into_the_tables() {
    assert_eq!(pml4_index_bits(VADDR), 8 * index(VADDR, 39));
    assert_eq!(pdpte_index_bits(VADDR), 8 * index(VADDR, 30));
    assert_eq!(pd_index_bits(VADDR), 8 * index(VADDR, 21));
    assert_eq!(pt_index_bits(VADDR), 8 * index(VADDR, 12));
    assert_eq!(pml4_index_bits(0xffff_ffff_ffff_ffff), 8 * 511);
    assert_eq!(pt_index_bits(0x1000), 8);
    assert_eq!(pt_index_bits(0xfff), 0);
}

#[test]
fn as_page_aligned_rounds_down() {
    assert_eq!(as_page_aligned(0x1234), 0x1000);
    assert_eq!(as_page_aligned(0x1000), 0x1000);
    assert_eq!(as_page_aligned(0xfff), 0);
    assert_eq!(as_page_aligned(u64::MAX), 0xffff_ffff_ffff_f000);
}

#[test]
fn translates_a_4k_page() {
    let mut mem = tables();
    link_down_to_directory(&mut mem);
    assert!(mem.write(PD + 8 * index(VADDR, 21), PT | 0x3));
    assert!(mem.write(PT + 8 * index(VADDR, 12), 0x0000_0001_2345_6000 | 0x3));
    assert_eq!(virt_to_phys(&mem, PML4, VADDR), Some(0x0000_0001_2345_6abc));
    assert_eq!(walk_tables(&mem, PML4, VADDR), Walk::Page4K(0x0000_0001_2345_6abc));
}

#[test]
fn translates_a_2m_large_page_and_keeps_the_low_21_bits() {
    let mut mem = tables();
    link_down_to_directory(&mut mem);
    assert!(mem.write(PD + 8 * index(VADDR, 21), 0x0000_0000_4020_0000 | 0x83));
    let phys = virt_to_phys(&mem, PML4, VADDR).unwrap();
    assert_eq!(phys & 0x1f_ffff, VADDR & 0x1f_ffff);
    assert_eq!(phys, 0x0000_0000_4020_0000 | (VADDR & 0x1f_ffff));
    assert_eq!(walk_tables(&mem, PML4, VADDR), Walk::Page2M(phys));
}

#[test]
fn translates_a_1g_large_page_and_keeps_the_low_30_bits() {
    let mut mem = tables();
    assert!(mem.write(PML4 + 8 * index(VADDR, 39), PDPT | 0x3));
    assert!(mem.write(PDPT + 8 * index(VADDR, 30), 0x0000_0002_c000_0000 | 0x83));
    let phys = virt_to_phys(&mem, PML4, VADDR).unwrap();
    assert_eq!(phys & 0x3fff_ffff, VADDR & 0x3fff_ffff);
    assert_eq!(phys, 0x0000_0002_c000_0000 | (VADDR & 0x3fff_ffff));
    assert_eq!(walk_tables(&mem, PML4, VADDR), Walk::Page1G(phys));
}

#[test]
fn large_page_bit_in_the_page_table_is_no_large_page() {
    let mut mem = tables();
    link_down_to_directory(&mut mem);
    assert!(mem.write(PD + 8 * index(VADDR, 21), PT | 0x3));
    assert!(mem.write(PT + 8 * index(VADDR, 12), 0x0000_0000_0070_0000 | 0x83));
    assert_eq!(virt_to_phys(&mem, PML4, VADDR), Some(0x0000_0000_0070_0abc));
}

#[test]
fn absent_entry_at_any_level_gives_none() {
    let mut mem = tables();
    assert_eq!(virt_to_phys(&mem, PML4, VADDR), None);
    assert!(mem.write(PML4 + 8 * index(VADDR, 39), PDPT | 0x3));
    assert_eq!(virt_to_phys(&mem, PML4, VADDR), None);
    assert!(mem.write(PDPT + 8 * index(VADDR, 30), PD | 0x3));
    assert_eq!(virt_to_phys(&mem, PML4, VADDR), None);
    assert!(mem.write(PD + 8 * index(VADDR, 21), PT | 0x3));
    assert_eq!(virt_to_phys(&mem, PML4, VADDR), None);
    assert_eq!(walk_tables(&mem, PML4, VADDR), Walk::NotMapped);
    assert!(mem.write(PT + 8 * index(VADDR, 12), 0x5000 | 0x1));
    assert_eq!(virt_to_phys(&mem, PML4, VADDR), Some(0x5abc));
}

#[test]
fn transition_entry_without_present_bit_ends_the_walk() {
    let mut mem = tables();
    link_down_to_directory(&mut mem);
    assert!(mem.write(PD + 8 * index(VADDR, 21), PT | 0x3));
    assert!(mem.write(PT + 8 * index(VADDR, 12), 0x5000 | 0x800));
    assert_eq!(virt_to_phys(&mem, PML4, VADDR), None);
    assert!(mem.write(PT + 8 * index(VADDR, 12), 0x5000 | 0x400));
    assert_eq!(virt_to_phys(&mem, PML4, VADDR), None);
}

#[test]
fn low_bits_of_the_root_address_are_ignored() {
    let mut mem = tables();
    link_down_to_directory(&mut mem);
    assert!(mem.write(PD + 8 * index(VADDR, 21), PT | 0x3));
    assert!(mem.write(PT + 8 * index(VADDR, 12), 0x9000 | 0x3));
    assert_eq!(virt_to_phys(&mem, PML4 | 0x18, VADDR), Some(0x9abc));
}

#[test]
fn table_outside_the_window_reads_as_absent() {
    let mut mem = tables();
    assert!(mem.write(PML4 + 8 * index(VADDR, 39), 0x0000_0000_9000_0000 | 0x3));
    assert_eq!(virt_to_phys(&mem, PML4, VADDR), None);
    assert_eq!(virt_to_phys(&mem, 0x4000_0000, VADDR), None);
}

#[test]
fn other_addresses_of_the_page_translate_with_their_offset() {
    let mut mem = tables();
    link_down_to_directory(&mut mem);
    assert!(mem.write(PD + 8 * index(VADDR, 21), PT | 0x3));
    assert!(mem.write(PT + 8 * index(VADDR, 12), 0x7_7000 | 0x3));
    let page = VADDR & !0xfff;
    assert_eq!(virt_to_phys(&mem, PML4, page), Some(0x7_7000));
    assert_eq!(virt_to_phys(&mem, PML4, page + 0xfff), Some(0x7_7fff));
    assert_eq!(virt_to_phys(&mem, PML4, page + 0x1000), None);
}

#[test]
fn walk_can_be_taken_step_by_step() {
    let top = PageWalk::start(PML4 | 0x18, VADDR);
    assert_eq!(top, PageWalk { addr: VADDR, level: 4, next: PML4 + 8 * index(VADDR, 39) });
    let upper = match top.step(PDPT | 0x3) {
        WalkStep::Read(next) => next,
        WalkStep::Done(found) => panic!("walk ended with {:?}", found),
    };
    assert_eq!(upper, PageWalk { addr: VADDR, level: 3, next: PDPT + 8 * index(VADDR, 30) });
    let directory = match upper.step(PD | 0x3) {
        WalkStep::Read(next) => next,
        WalkStep::Done(found) => panic!("walk ended with {:?}", found),
    };
    assert_eq!(directory, PageWalk { addr: VADDR, level: 2, next: PD + 8 * index(VADDR, 21) });
    let table = match directory.step(PT | 0x3) {
        WalkStep::Read(next) => next,
        WalkStep::Done(found) => panic!("walk ended with {:?}", found),
    };
    assert_eq!(table, PageWalk { addr: VADDR, level: 1, next: PT + 8 * index(VADDR, 12) });
    assert_eq!(table.step(0x4_2000 | 0x3), WalkStep::Done(Walk::Page4K(0x4_2abc)));
    assert_eq!(table.step(0x4_2000), WalkStep::Done(Walk::NotMapped));
    assert_eq!(top.step(0), WalkStep::Done(Walk::NotMapped));
    assert_eq!(
        upper.step(0x0000_0002_c000_0000 | 0x81),
        WalkStep::Done(Walk::Page1G(0x0000_0002_c000_0000 | (VADDR & 0x3fff_ffff)))
    );
    assert_eq!(
        directory.step(0x0000_0000_4020_0000 | 0x81),
        WalkStep::Done(Walk::Page2M(0x0000_0000_4020_0000 | (VADDR & 0x1f_ffff)))
    );
    match top.step(PDPT | 0x83) {
        WalkStep::Read(next) => assert_eq!(next.level, 3),
        WalkStep::Done(found) => panic!("walk ended with {:?}", found),
    }
}
