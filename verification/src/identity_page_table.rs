//! The identity-mapped page table and its remapping slots.
//!
//! The table owns a root frame and a pool of frames for the lower levels,
//! all held in one window of physical memory: the root is the first frame of
//! the window and the pool follows it. Mappings are built eagerly at 4 KiB
//! granularity. Top-level entries above the identity mapping serve as slots
//! into which a top-level entry of a foreign address space can be copied for
//! a while.

use vstd::prelude::*;
use crate::frame_alloc::{all_below, lemma_room_for_missing, StaticFrameAllocator};
use crate::free_list::{lemma_top_leaves, ConcurrentStaticVec, DropPush};
use crate::mem_maps::{EfiMemMaps, MemoryRegion};
use crate::phys_mem::{PhysMemory, PAGE_SIZE, PHYS_LIMIT};
use crate::vtop::{
    entry_address,
    entry_large,
    entry_present,
    entry_writable,
    is_large_page,
    pd_index,
    pd_index_bits,
    pdpt_index,
    pdpte_index_bits,
    pml4_index,
    pml4_index_bits,
    pt_index,
    pt_index_bits,
    translate,
    walk,
    walk_pde,
    walk_pdpte,
    walk_pml4e,
    walk_pte,
    writable_walk,
    Walk,
    ADDR_MASK_4K,
};

verus! {

/// Number of frames in the pool for lower-level tables.
pub const POOL_FRAMES: usize = 10000;

/// Number of entries of the root table.
pub const REMAP_SLOTS: usize = 512;

/// Span of virtual addresses that one entry of the root table governs.
pub const REMAP_SIZE: u64 = 0x80_0000_0000;

/// Flags of every entry that the table writes: present and writable.
pub const TABLE_FLAGS: u64 = 0x3;

/// Calls `bits` of `x86_64::structures::paging::PageTableFlags` on the union
/// of its flags `PRESENT` and `WRITABLE`. The crate defines `PRESENT` as bit
/// 0 and `WRITABLE` as bit 1, so the bits are those of `TABLE_FLAGS`.
#[verifier::external_body]
fn present_writable() -> (flags: u64)
    ensures
        flags == TABLE_FLAGS,
{
    (x86_64::structures::paging::PageTableFlags::PRESENT
        | x86_64::structures::paging::PageTableFlags::WRITABLE).bits()
}

/// Why a page could not be mapped.
#[derive(Clone, Copy, Debug, PartialEq, Eq, Structural)]
pub enum MapToError {
    /// A table was needed and no frame was free.
    FrameAllocationFailed,
    /// An entry on the way maps a large page.
    ParentEntryHugePage,
    /// The page is mapped already.
    PageAlreadyMapped,
    /// An entry on the way points to a table that the pool does not hold.
    TableOutOfReach,
    /// An address does not fit the address space.
    AddressOutOfRange,
    /// An address is not aligned as the mapping needs it.
    IncompatibleAlignment,
}

/// Why an operation on the identity page table failed.
#[derive(Clone, Copy, Debug, PartialEq, Eq, Structural)]
pub enum PageTableError {
    /// A page of the region could not be mapped, for the cause given.
    MappingFailed(MemoryRegion, MapToError),
    /// The range does not lie within the span of one entry of the root.
    Unaligned,
    /// No remapping slot is free.
    NoFreeSlot,
}

/// First address that is no canonical address of the lower half.
pub const CANONICAL_LIMIT: u64 = 0x8000_0000_0000;

/// Why the region cannot be identity mapped whatever the table holds, if so:
/// a region with pages must start on a page boundary and end within the
/// lower half of the address space.
pub open spec fn region_error(region: MemoryRegion) -> Option<MapToError> {
    if region.page_count == 0 {
        None
    } else if region.physical_start % PAGE_SIZE != 0 {
        Some(MapToError::IncompatibleAlignment)
    } else if region.physical_start + region.page_count * PAGE_SIZE > CANONICAL_LIMIT {
        Some(MapToError::AddressOutOfRange)
    } else {
        None
    }
}

/// End of the highest of the regions that have pages; 0 when none has.
pub open spec fn highest_end(regions: Seq<MemoryRegion>) -> int
    decreases regions.len(),
{
    if regions.len() == 0 {
        0
    } else {
        let rest = highest_end(regions.drop_last());
        let last = regions.last();
        if last.page_count > 0 && last.physical_start + last.page_count * PAGE_SIZE > rest {
            last.physical_start + last.page_count * PAGE_SIZE
        } else {
            rest
        }
    }
}

/// The highest address `end` divided by the span of an entry of the root,
/// rounded up: the index of the first entry that lies wholly above `end`.
pub open spec fn first_slot_above(end: int) -> int {
    (end + REMAP_SIZE - 1) / (REMAP_SIZE as int)
}

/// The slots from `first` up to the last entry of the root, in rising order.
pub open spec fn slots_from(first: int) -> Seq<usize> {
    Seq::new((REMAP_SLOTS - first) as nat, |i: int| (first + i) as usize)
}

/// The word at `x` after the upper half of the root at `root` was filled from
/// the root at `dtb` in `foreign`: entries 256 to 511 are those of the foreign
/// root, everything else is as in `before`.
pub open spec fn high_half_copied(
    before: PhysMemory,
    foreign: PhysMemory,
    dtb: u64,
    root: u64,
    x: u64,
) -> u64 {
    if root + 2048 <= x < root + 4096 && (x - root) % 8 == 0 {
        foreign.read_spec(entry_address(dtb, ((x - root) / 8) as u64))
    } else {
        before.read_spec(x)
    }
}

/// Start of the page that holds `addr`.
pub open spec fn page_start(addr: u64) -> int {
    addr - addr % PAGE_SIZE
}

/// End of the last page that the `size` bytes from `addr` on touch.
pub open spec fn pages_end(addr: u64, size: u64) -> int {
    (addr + size + 0xfff) - (addr + size + 0xfff) % (PAGE_SIZE as int)
}

/// Why the `size` bytes at `phys` cannot be mapped at `virt` whatever the
/// table holds, if so.
pub open spec fn range_error(phys: u64, virt: u64, size: u64) -> Option<MapToError> {
    if virt % PAGE_SIZE != phys % PAGE_SIZE {
        Some(MapToError::IncompatibleAlignment)
    } else if pages_end(phys, size) > PHYS_LIMIT || page_start(virt) + (pages_end(phys, size)
        - page_start(phys)) > u64::MAX + 1 {
        Some(MapToError::AddressOutOfRange)
    } else {
        None
    }
}

/// Filling the upper half of a root a second time from the same foreign root
/// changes nothing: every word reads as after the first time.
pub proof fn lemma_high_half_copy_is_idempotent(
    before: PhysMemory,
    once: PhysMemory,
    twice: PhysMemory,
    foreign: PhysMemory,
    dtb: u64,
    root: u64,
)
    requires
        forall|x: u64| #[trigger] once.read_spec(x) == high_half_copied(before, foreign, dtb, root, x),
        forall|x: u64| #[trigger] twice.read_spec(x) == high_half_copied(once, foreign, dtb, root, x),
    ensures
        forall|x: u64| #[trigger] twice.read_spec(x) == once.read_spec(x),
{
}

/// Whether `addr` lies in page `k` of the pages from `start` on.
pub open spec fn in_page(start: int, k: int, addr: u64) -> bool {
    start + k * PAGE_SIZE <= addr < start + (k + 1) * PAGE_SIZE
}

/// Whether `virt_addr` and `virt_addr + size` lie within the span of the
/// same entry of the root.
pub open spec fn same_span(virt_addr: u64, size: u64) -> bool {
    virt_addr / REMAP_SIZE == (virt_addr + size) / (REMAP_SIZE as int)
}

/// The state of a table as plain values: the address of the root, the words
/// of the root and of the pool in address order, the level of every frame of
/// the pool (0 for a free frame) and the stack of free frames.
#[verifier::ext_equal]
pub struct TableModel {
    pub root: u64,
    pub words: Seq<u64>,
    pub levels: Seq<u8>,
    pub free: Seq<usize>,
}

impl TableModel {
    /// The table without any entry whose root lies at `root`: all words are
    /// zero and all frames of the pool are free, the last one on top.
    pub open spec fn empty(root: u64) -> TableModel {
        TableModel {
            root,
            words: Seq::new((512 * (POOL_FRAMES + 1)) as nat, |i: int| 0u64),
            levels: Seq::new(POOL_FRAMES as nat, |i: int| 0u8),
            free: Seq::new(POOL_FRAMES as nat, |i: int| i as usize),
        }
    }

    /// Whether `addr` is the address of a word of the table.
    pub open spec fn contains(self, addr: u64) -> bool {
        &&& self.root <= addr
        &&& addr < self.root + 8 * self.words.len()
        &&& (addr - self.root) % 8 == 0
    }

    /// Position in `words` of the word at `addr`.
    pub open spec fn word_index(self, addr: u64) -> int {
        (addr - self.root) / 8
    }

    /// The word at `addr`; zero outside the table.
    pub open spec fn read(self, addr: u64) -> u64 {
        if self.contains(addr) {
            self.words[self.word_index(addr)]
        } else {
            0
        }
    }

    /// Address of frame `frame` of the pool.
    pub open spec fn frame_addr(self, frame: int) -> int {
        self.root + PAGE_SIZE + frame * PAGE_SIZE
    }

    /// Whether `addr` is the start of a pool frame that holds a table of `level`.
    pub open spec fn is_table(self, addr: u64, level: u8) -> bool {
        &&& self.root + PAGE_SIZE <= addr < self.root + PAGE_SIZE + POOL_FRAMES * PAGE_SIZE
        &&& (addr - (self.root + PAGE_SIZE)) % (PAGE_SIZE as int) == 0
        &&& self.levels[(addr - (self.root + PAGE_SIZE)) / (PAGE_SIZE as int)] == level
    }

    /// The table with `word` stored at `addr`.
    pub open spec fn written(self, addr: u64, word: u64) -> TableModel {
        TableModel {
            root: self.root,
            words: self.words.update(self.word_index(addr), word),
            levels: self.levels,
            free: self.free,
        }
    }

    /// Following the entry at `at` to the table of `child_level`, and the
    /// table afterwards. An empty entry takes the frame on top of the free
    /// stack and is made to point to it, present and writable; no free frame
    /// fails with `FrameAllocationFailed` and leaves the table as it is.
    /// Another entry gets the present and writable flags first; it must then
    /// not map a large page (`ParentEntryHugePage`) and must point to a table
    /// of that level in the pool (`TableOutOfReach`).
    pub open spec fn next_table(self, at: u64, child_level: u8) -> (
        TableModel,
        Result<u64, MapToError>,
    ) {
        let entry = self.read(at);
        if entry == 0 {
            if self.free.len() == 0 {
                (self, Err(MapToError::FrameAllocationFailed))
            } else {
                let frame = self.free.last();
                let child = self.frame_addr(frame as int) as u64;
                (
                    TableModel {
                        root: self.root,
                        words: self.words.update(self.word_index(at), child | TABLE_FLAGS),
                        levels: self.levels.update(frame as int, child_level),
                        free: self.free.drop_last(),
                    },
                    Ok(child),
                )
            }
        } else {
            let marked = self.written(at, entry | TABLE_FLAGS);
            if entry_large(entry) {
                (marked, Err(MapToError::ParentEntryHugePage))
            } else if !self.is_table(entry & ADDR_MASK_4K, child_level) {
                (marked, Err(MapToError::TableOutOfReach))
            } else {
                (marked, Ok(entry & ADDR_MASK_4K))
            }
        }
    }

    /// Mapping the page at `virt` to the frame at `phys`, and the table
    /// afterwards: the three tables on the way are followed or created from
    /// the root down, then the entry of the page, which must be empty
    /// (`PageAlreadyMapped` else), is made to point to the frame. Tables that
    /// were created before a failure stay.
    pub open spec fn map_page(self, virt: u64, phys: u64) -> (TableModel, Result<(), MapToError>) {
        let (first, upper) = self.next_table((self.root + 8 * pml4_index(virt)) as u64, 3);
        match upper {
            Err(cause) => (first, Err(cause)),
            Ok(pdpt) => {
                let (second, directory) = first.next_table(
                    (pdpt + 8 * pdpt_index(virt)) as u64,
                    2,
                );
                match directory {
                    Err(cause) => (second, Err(cause)),
                    Ok(pd) => {
                        let (third, table) = second.next_table(
                            (pd + 8 * pd_index(virt)) as u64,
                            1,
                        );
                        match table {
                            Err(cause) => (third, Err(cause)),
                            Ok(pt) => {
                                let at = (pt + 8 * pt_index(virt)) as u64;
                                if third.read(at) != 0 {
                                    (third, Err(MapToError::PageAlreadyMapped))
                                } else {
                                    (third.written(at, phys | TABLE_FLAGS), Ok(()))
                                }
                            },
                        }
                    },
                }
            },
        }
    }

    /// Mapping `count` pages in a row, the first at `virt` to the frame at
    /// `phys`, up to the first page that fails.
    pub open spec fn map_pages(self, virt: u64, phys: u64, count: nat) -> (
        TableModel,
        Result<(), MapToError>,
    )
        decreases count,
    {
        if count == 0 {
            (self, Ok(()))
        } else {
            let (next, mapped) = self.map_page(virt, phys);
            if mapped is Err {
                (next, mapped)
            } else {
                next.map_pages(
                    (virt + PAGE_SIZE) as u64,
                    (phys + PAGE_SIZE) as u64,
                    (count - 1) as nat,
                )
            }
        }
    }

    /// The table after `count` pages in a row were tried one after the
    /// other, the first at `virt` to the frame at `phys`: a page that cannot
    /// be mapped leaves what its attempt did and the next page is tried.
    pub open spec fn map_each(self, virt: u64, phys: u64, count: nat) -> TableModel
        decreases count,
    {
        if count == 0 {
            self
        } else {
            self.map_each(virt, phys, (count - 1) as nat).map_page(
                (virt + (count - 1) * PAGE_SIZE) as u64,
                (phys + (count - 1) * PAGE_SIZE) as u64,
            ).0
        }
    }

    /// Whether page `k` of the pages from `virt` on is mapped without an
    /// error when its turn comes.
    pub open spec fn maps_at(self, virt: u64, phys: u64, k: int) -> bool {
        self.map_each(virt, phys, k as nat).map_page(
            (virt + k * PAGE_SIZE) as u64,
            (phys + k * PAGE_SIZE) as u64,
        ).1 is Ok
    }

    /// Identity mapping the regions in their order, up to the first region
    /// that cannot be mapped.
    pub open spec fn map_regions(self, regions: Seq<MemoryRegion>) -> (
        TableModel,
        Result<(), PageTableError>,
    )
        decreases regions.len(),
    {
        if regions.len() == 0 {
            (self, Ok(()))
        } else {
            let region = regions.first();
            match region_error(region) {
                Some(cause) => (self, Err(PageTableError::MappingFailed(region, cause))),
                None => {
                    let (next, mapped) = self.map_pages(
                        region.physical_start,
                        region.physical_start,
                        region.page_count as nat,
                    );
                    match mapped {
                        Err(cause) => (next, Err(PageTableError::MappingFailed(region, cause))),
                        Ok(()) => next.map_regions(regions.drop_first()),
                    }
                },
            }
        }
    }
}

/// The page table that maps physical memory to itself, with the pool its
/// lower-level tables come from and the remapping slots of its root.
pub struct IdentityPageTable {
    memory: PhysMemory,
    allocator: StaticFrameAllocator<POOL_FRAMES>,
    levels: Vec<u8>,
    free_virt_remaps: ConcurrentStaticVec<usize, REMAP_SLOTS>,
    identity_slots: usize,
}

/// An entry that points to the table at `table` reads back its address and
/// is present and not large.
pub proof fn lemma_table_entry_bits(table: u64)
    requires
        table % 0x1000 == 0,
        table < 0x0010_0000_0000_0000,
    ensures
        (table | 0x3) & 0x000f_ffff_ffff_f000 == table,
        (table | 0x3) & 0x1 != 0,
        (table | 0x3) & 0x2 != 0,
        (table | 0x3) & 0x80 == 0,
        (table | 0x3) != 0,
{
    assert((table | 0x3) & 0x000f_ffff_ffff_f000 == table && (table | 0x3) & 0x1 != 0 && (table
        | 0x3) & 0x2 != 0 && (table | 0x3) & 0x80 == 0 && (table | 0x3) != 0) by (bit_vector)
        requires
            table % 0x1000 == 0,
            table < 0x0010_0000_0000_0000,
    ;
}

/// Setting the present and writable flags keeps the address and the
/// large-page bit of an entry.
pub proof fn lemma_flag_bits(entry: u64)
    ensures
        (entry | 0x3) & 0x000f_ffff_ffff_f000 == entry & 0x000f_ffff_ffff_f000,
        (entry | 0x3) & 0x000f_ffff_ffe0_0000 == entry & 0x000f_ffff_ffe0_0000,
        (entry | 0x3) & 0x000f_ffff_c000_0000 == entry & 0x000f_ffff_c000_0000,
        (entry | 0x3) & 0x80 == entry & 0x80,
        (entry | 0x3) & 0x1 != 0,
        (entry | 0x3) & 0x2 != 0,
        (entry | 0x3) != 0,
        entry & 0x1 != 0 ==> entry != 0,
        entry & 0x3 == 0x3 ==> entry & 0x2 != 0 && entry & 0x1 != 0,
{
    assert((entry | 0x3) & 0x000f_ffff_ffff_f000 == entry & 0x000f_ffff_ffff_f000 && (entry | 0x3)
        & 0x000f_ffff_ffe0_0000 == entry & 0x000f_ffff_ffe0_0000 && (entry | 0x3)
        & 0x000f_ffff_c000_0000 == entry & 0x000f_ffff_c000_0000 && (entry | 0x3) & 0x80 == entry
        & 0x80 && (entry | 0x3) & 0x1 != 0 && (entry | 0x3) & 0x2 != 0 && (entry | 0x3) != 0 && (
    entry & 0x1 != 0 ==> entry != 0) && (entry & 0x3 == 0x3 ==> entry & 0x2 != 0 && entry & 0x1
        != 0)) by (bit_vector);
}

/// The address part of an entry is page aligned and below the physical limit.
proof fn lemma_entry_table_bits(entry: u64)
    ensures
        (entry & 0x000f_ffff_ffff_f000) % 0x1000 == 0,
        (entry & 0x000f_ffff_ffff_f000) < 0x0010_0000_0000_0000,
{
    assert((entry & 0x000f_ffff_ffff_f000) % 0x1000 == 0 && (entry & 0x000f_ffff_ffff_f000)
        < 0x0010_0000_0000_0000) by (bit_vector);
}

/// Entry `index` of the table that `table` names lies `8 * index` bytes
/// behind the start of that table.
proof fn lemma_entry_address(table: u64, index: u64)
    requires
        index < 512,
    ensures
        entry_address(table, index) == (table & ADDR_MASK_4K) + 8 * index,
{
    assert((table & 0x000f_ffff_ffff_f000) | (index << 3) == (table & 0x000f_ffff_ffff_f000) + 8
        * index) by (bit_vector)
        requires
            index < 512,
    ;
}

/// A page-aligned address below the physical limit is its own address part.
proof fn lemma_aligned_is_table(addr: u64)
    requires
        addr % 0x1000 == 0,
        addr < 0x0010_0000_0000_0000,
    ensures
        addr & ADDR_MASK_4K == addr,
{
    assert(addr & 0x000f_ffff_ffff_f000 == addr) by (bit_vector)
        requires
            addr % 0x1000 == 0,
            addr < 0x0010_0000_0000_0000,
    ;
}

/// All addresses of one page select the same entry at every level, and the
/// offset within the page is what the low twelve bits hold.
proof fn lemma_same_page(page: u64, addr: u64)
    requires
        page % 0x1000 == 0,
        page <= addr,
        addr - page < 0x1000,
    ensures
        pml4_index(addr) == pml4_index(page),
        pdpt_index(addr) == pdpt_index(page),
        pd_index(addr) == pd_index(page),
        pt_index(addr) == pt_index(page),
        addr & 0xfff == addr - page,
{
    assert((addr >> 39) & 0x1ff == (page >> 39) & 0x1ff && (addr >> 30) & 0x1ff == (page >> 30)
        & 0x1ff && (addr >> 21) & 0x1ff == (page >> 21) & 0x1ff && (addr >> 12) & 0x1ff == (page
        >> 12) & 0x1ff && addr & 0xfff == addr - page) by (bit_vector)
        requires
            page % 0x1000 == 0,
            page <= addr,
            addr - page < 0x1000,
    ;
}

/// The entry that maps the frame at `phys` resolves every offset within it.
proof fn lemma_page_entry_bits(phys: u64, offset: u64)
    requires
        phys % 0x1000 == 0,
        phys < 0x0010_0000_0000_0000,
        offset < 0x1000,
    ensures
        ((phys | 0x3) & 0x000f_ffff_ffff_f000) | offset == phys + offset,
        (phys | 0x3) & 0x1 != 0,
        (phys | 0x3) & 0x2 != 0,
        (phys | 0x3) != 0,
{
    assert((((phys | 0x3) & 0x000f_ffff_ffff_f000) | offset) == phys + offset && (phys | 0x3) & 0x1
        != 0 && (phys | 0x3) & 0x2 != 0 && (phys | 0x3) != 0) by (bit_vector)
        requires
            phys % 0x1000 == 0,
            phys < 0x0010_0000_0000_0000,
            offset < 0x1000,
    ;
}

/// A write that replaces an absent entry, or only sets the present and
/// writable flags of an entry, keeps every translation that was there.
pub proof fn lemma_write_keeps_walk(
    before: PhysMemory,
    after: PhysMemory,
    at: u64,
    word: u64,
    dtb: u64,
    addr: u64,
)
    requires
        forall|x: u64|
            after.read_spec(x) == if x == at {
                word
            } else {
                before.read_spec(x)
            },
        !entry_present(before.read_spec(at)) || word == before.read_spec(at) | TABLE_FLAGS,
        walk(before, dtb, addr) != Walk::NotMapped,
    ensures
        walk(after, dtb, addr) == walk(before, dtb, addr),
        writable_walk(before, dtb, addr) ==> writable_walk(after, dtb, addr),
{
    lemma_flag_bits(before.read_spec(at));
}

/// Whether every address that translates under `dtb` in `before` is found
/// by the same walk in `after`, and every address that is mapped present and
/// writable in `before` is so in `after`.
#[verifier::opaque]
pub open spec fn keeps_walks(before: PhysMemory, after: PhysMemory, dtb: u64) -> bool {
    &&& forall|addr: u64| #[trigger]
        walk(before, dtb, addr) != Walk::NotMapped ==> walk(after, dtb, addr) == walk(
            before,
            dtb,
            addr,
        )
    &&& forall|addr: u64| #[trigger]
        writable_walk(before, dtb, addr) ==> writable_walk(after, dtb, addr)
}

/// A memory keeps its own translations.
pub proof fn lemma_keeps_walks_same(mem: PhysMemory, dtb: u64)
    ensures
        keeps_walks(mem, mem, dtb),
{
    reveal(keeps_walks);
}

/// Keeping translations carries over two changes in a row.
pub proof fn lemma_keeps_walks_chain(first: PhysMemory, second: PhysMemory, third: PhysMemory, dtb: u64)
    requires
        keeps_walks(first, second, dtb),
        keeps_walks(second, third, dtb),
    ensures
        keeps_walks(first, third, dtb),
{
    reveal(keeps_walks);
    assert forall|addr: u64| #[trigger]
        walk(first, dtb, addr) != Walk::NotMapped implies walk(third, dtb, addr) == walk(
        first,
        dtb,
        addr,
    ) by {}
    assert forall|addr: u64| #[trigger] writable_walk(first, dtb, addr) implies writable_walk(
        third,
        dtb,
        addr,
    ) by {
        assert(writable_walk(second, dtb, addr));
    }
}

/// An address that translates in `before` translates to the same address in
/// a memory that keeps the translations of `before`.
pub proof fn lemma_kept_translation(before: PhysMemory, after: PhysMemory, dtb: u64, addr: u64)
    requires
        keeps_walks(before, after, dtb),
        translate(before, dtb, addr) is Some,
    ensures
        translate(after, dtb, addr) == translate(before, dtb, addr),
        writable_walk(before, dtb, addr) ==> writable_walk(after, dtb, addr),
{
    reveal(keeps_walks);
}

/// A single write that replaces an absent entry, or only sets the present
/// and writable flags of an entry, keeps the translations.
proof fn lemma_write_keeps_walks(before: PhysMemory, after: PhysMemory, at: u64, word: u64, dtb: u64)
    requires
        forall|x: u64|
            after.read_spec(x) == if x == at {
                word
            } else {
                before.read_spec(x)
            },
        !entry_present(before.read_spec(at)) || word == before.read_spec(at) | TABLE_FLAGS,
    ensures
        keeps_walks(before, after, dtb),
{
    reveal(keeps_walks);
    assert forall|addr: u64| #[trigger]
        walk(before, dtb, addr) != Walk::NotMapped implies walk(after, dtb, addr) == walk(
        before,
        dtb,
        addr,
    ) by {
        lemma_write_keeps_walk(before, after, at, word, dtb, addr);
    }
    assert forall|addr: u64| #[trigger] writable_walk(before, dtb, addr) implies writable_walk(
        after,
        dtb,
        addr,
    ) by {
        lemma_write_keeps_walk(before, after, at, word, dtb, addr);
    }
}

/// The walk along four entries that lead to the frame at `phys` resolves
/// every address of the page at `virt` to its place in that frame.
proof fn lemma_new_page_walk(
    mem: PhysMemory,
    root: u64,
    virt: u64,
    addr: u64,
    t3: u64,
    t2: u64,
    t1: u64,
    phys: u64,
)
    requires
        root % PAGE_SIZE == 0,
        root < PHYS_LIMIT,
        virt % PAGE_SIZE == 0,
        virt <= addr < virt + PAGE_SIZE,
        phys % PAGE_SIZE == 0,
        phys < PHYS_LIMIT,
        ({
            let e4 = mem.read_spec((root + 8 * pml4_index(virt)) as u64);
            entry_present(e4) && entry_writable(e4) && e4 & ADDR_MASK_4K == t3
        }),
        ({
            let e3 = mem.read_spec((t3 + 8 * pdpt_index(virt)) as u64);
            entry_present(e3) && entry_writable(e3) && !entry_large(e3) && e3 & ADDR_MASK_4K == t2
        }),
        ({
            let e2 = mem.read_spec((t2 + 8 * pd_index(virt)) as u64);
            entry_present(e2) && entry_writable(e2) && !entry_large(e2) && e2 & ADDR_MASK_4K == t1
        }),
        mem.read_spec((t1 + 8 * pt_index(virt)) as u64) == phys | TABLE_FLAGS,
    ensures
        translate(mem, root, addr) == Some((phys + (addr - virt)) as u64),
        writable_walk(mem, root, addr),
{
    lemma_same_page(virt, addr);
    lemma_page_entry_bits(phys, (addr - virt) as u64);
    lemma_aligned_is_table(root);
    assert(pml4_index(virt) < 512 && pdpt_index(virt) < 512 && pd_index(virt) < 512 && pt_index(
        virt,
    ) < 512) by {
        assert((virt >> 39) & 0x1ff < 512 && (virt >> 30) & 0x1ff < 512 && (virt >> 21) & 0x1ff
            < 512 && (virt >> 12) & 0x1ff < 512) by (bit_vector);
    }
    lemma_entry_address(root, pml4_index(virt));
    let e4 = walk_pml4e(mem, root, addr);
    lemma_entry_address(e4, pdpt_index(virt));
    let e3 = walk_pdpte(mem, root, addr);
    lemma_entry_address(e3, pd_index(virt));
    let e2 = walk_pde(mem, root, addr);
    lemma_entry_address(e2, pt_index(virt));
}

/// Whether every address that one of the first `top` entries of the root at
/// `dtb` governs is found by the same walk in `after` as in `before`, and is
/// mapped present and writable in both or in neither.
#[verifier::opaque]
pub open spec fn same_walks_below(before: PhysMemory, after: PhysMemory, dtb: u64, top: int) -> bool {
    &&& forall|addr: u64|
        pml4_index(addr) < top ==> #[trigger] walk(after, dtb, addr) == walk(before, dtb, addr)
    &&& forall|addr: u64|
        pml4_index(addr) < top ==> #[trigger] writable_walk(after, dtb, addr) == writable_walk(
            before,
            dtb,
            addr,
        )
}

/// A memory has the walks of itself.
pub proof fn lemma_same_walks_refl(mem: PhysMemory, dtb: u64, top: int)
    ensures
        same_walks_below(mem, mem, dtb, top),
{
    reveal(same_walks_below);
}

/// Having the same walks carries over two changes in a row, below the lower
/// of the two bounds.
pub proof fn lemma_same_walks_chain(
    first: PhysMemory,
    second: PhysMemory,
    third: PhysMemory,
    dtb: u64,
    top: int,
    later: int,
)
    requires
        same_walks_below(first, second, dtb, top),
        same_walks_below(second, third, dtb, later),
        later <= top,
    ensures
        same_walks_below(first, third, dtb, later),
{
    reveal(same_walks_below);
    assert forall|addr: u64| pml4_index(addr) < later implies #[trigger] walk(third, dtb, addr)
        == walk(first, dtb, addr) by {
        assert(walk(second, dtb, addr) == walk(first, dtb, addr));
    }
    assert forall|addr: u64| pml4_index(addr) < later implies #[trigger] writable_walk(
        third,
        dtb,
        addr,
    ) == writable_walk(first, dtb, addr) by {
        assert(writable_walk(second, dtb, addr) == writable_walk(first, dtb, addr));
    }
}

/// An address below the bound is found by the same walk in both memories.
pub proof fn lemma_same_walk(before: PhysMemory, after: PhysMemory, dtb: u64, top: int, addr: u64)
    requires
        same_walks_below(before, after, dtb, top),
        pml4_index(addr) < top,
    ensures
        walk(after, dtb, addr) == walk(before, dtb, addr),
        translate(after, dtb, addr) == translate(before, dtb, addr),
        writable_walk(after, dtb, addr) == writable_walk(before, dtb, addr),
{
    reveal(same_walks_below);
}

/// The end of a region with pages is no higher than the highest end.
pub proof fn lemma_highest_end_bounds(regions: Seq<MemoryRegion>, i: int)
    requires
        0 <= i < regions.len(),
        regions[i].page_count > 0,
    ensures
        regions[i].physical_start + regions[i].page_count * PAGE_SIZE <= highest_end(regions),
    decreases regions.len(),
{
    if i < regions.len() - 1 {
        lemma_highest_end_bounds(regions.drop_last(), i);
    }
}

/// An address that a region of an identity-mapped snapshot covers is
/// governed by an entry of the root below the first remapping slot.
pub proof fn lemma_covered_below_slots(regions: Seq<MemoryRegion>, i: int, addr: u64)
    requires
        0 <= i < regions.len(),
        regions[i].covers(addr),
        forall|j: int| 0 <= j < regions.len() ==> region_error(#[trigger] regions[j]) is None,
        highest_end(regions) <= CANONICAL_LIMIT,
    ensures
        pml4_index(addr) < first_slot_above(highest_end(regions)),
{
    lemma_highest_end_bounds(regions, i);
    let end = highest_end(regions);
    assert(addr < end);
    assert((addr >> 39) & 0x1ff == addr / 0x80_0000_0000) by (bit_vector)
        requires
            addr < 0x8000_0000_0000u64,
    ;
    assert(addr / 0x80_0000_0000 < (end + 0x80_0000_0000 - 1) / 0x80_0000_0000);
}

/// An address of an identity-mapped region still translates to itself after
/// any changes that keep the walks below a bound, if the bound is no lower
/// than the first remapping slot of the mapping.
pub proof fn lemma_identity_survives(
    built: PhysMemory,
    later: PhysMemory,
    dtb: u64,
    top: int,
    regions: Seq<MemoryRegion>,
    i: int,
    addr: u64,
)
    requires
        0 <= i < regions.len(),
        regions[i].covers(addr),
        forall|j: int| 0 <= j < regions.len() ==> region_error(#[trigger] regions[j]) is None,
        highest_end(regions) <= CANONICAL_LIMIT,
        translate(built, dtb, addr) == Some(addr),
        first_slot_above(highest_end(regions)) <= top,
        same_walks_below(built, later, dtb, top),
    ensures
        translate(later, dtb, addr) == Some(addr),
        writable_walk(later, dtb, addr) == writable_walk(built, dtb, addr),
{
    lemma_covered_below_slots(regions, i, addr);
    lemma_same_walk(built, later, dtb, top, addr);
}

impl IdentityPageTable {
    /// The memory that holds the root table and the pool of frames.
    pub closed spec fn memory(&self) -> PhysMemory {
        self.memory
    }

    /// Physical address of the root table.
    pub open spec fn root(&self) -> u64 {
        self.memory().base()
    }

    /// The state of the table as plain values.
    pub closed spec fn model(&self) -> TableModel {
        TableModel {
            root: self.memory.base(),
            words: self.memory.words(),
            levels: self.levels@,
            free: self.allocator.free(),
        }
    }

    /// Indices of the free remapping slots; the last one is lent next.
    pub closed spec fn free_slots(&self) -> Seq<usize> {
        self.free_virt_remaps@
    }

    /// Number of free frames in the pool.
    pub closed spec fn free_frames(&self) -> nat {
        self.allocator.free().len()
    }

    /// Index of the first entry of the root that may hold an entry of a
    /// foreign root. The entries below it are the table's own: empty, or
    /// pointing to an upper directory in the pool.
    pub closed spec fn identity_top(&self) -> int {
        self.identity_slots as int
    }

    /// Physical address of the first frame of the pool.
    pub open spec fn pool_base(&self) -> int {
        self.root() + PAGE_SIZE
    }

    /// Word `index` of pool frame `frame`.
    pub closed spec fn pool_word(&self, frame: int, index: int) -> u64 {
        self.memory.words()[(frame + 1) * 512 + index]
    }

    /// Entry `index` of the root table.
    pub closed spec fn root_word(&self, index: int) -> u64 {
        self.memory.words()[index]
    }

    /// Level of the table that pool frame `frame` holds: 3 for an upper
    /// directory, 2 for a directory, 1 for a page table, 0 for a free frame.
    pub closed spec fn level_of(&self, frame: int) -> u8 {
        self.levels@[frame]
    }

    /// Whether `addr` is the start of a pool frame.
    pub open spec fn in_pool(&self, addr: u64) -> bool {
        &&& self.pool_base() <= addr < self.pool_base() + POOL_FRAMES * PAGE_SIZE
        &&& (addr - self.pool_base()) % (PAGE_SIZE as int) == 0
    }

    /// Index of the pool frame that starts at `addr`.
    pub open spec fn frame_index(&self, addr: u64) -> int {
        (addr - self.pool_base()) / (PAGE_SIZE as int)
    }

    /// Whether `addr` is the start of a pool frame that holds a table of `level`.
    pub open spec fn is_table(&self, addr: u64, level: u8) -> bool {
        self.in_pool(addr) && self.level_of(self.frame_index(addr)) == level
    }

    /// Whether `entry` points to a table of `level` that the pool holds.
    pub open spec fn owned_entry(&self, entry: u64, level: u8) -> bool {
        &&& entry_present(entry)
        &&& !entry_large(entry)
        &&& self.is_table(entry & ADDR_MASK_4K, level)
    }

    /// The table is consistent: every frame of the pool is a free frame full
    /// of zeros or a table of one level, the entries of upper directories and
    /// directories are empty or point to a table of the next level in the
    /// pool, the root's own entries are empty or point to an upper directory
    /// in the pool, the remapping slots lie behind them, and no frame and no
    /// slot is free twice.
    #[verifier::opaque]
    pub closed spec fn wf(&self) -> bool {
        &&& self.memory.wf()
        &&& self.memory.words().len() == 512 * (POOL_FRAMES + 1)
        &&& self.allocator.wf()
        &&& self.allocator.base() == self.root() + PAGE_SIZE
        &&& self.levels@.len() == POOL_FRAMES
        &&& forall|f: int| 0 <= f < POOL_FRAMES ==> #[trigger] self.level_of(f) <= 3
        &&& forall|k: int|
            0 <= k < self.allocator.free().len() ==> self.level_of(
                #[trigger] self.allocator.free()[k] as int,
            ) == 0
        &&& forall|f: int, i: int|
            0 <= f < POOL_FRAMES && 0 <= i < 512 && self.level_of(f) == 0 ==> #[trigger] self.pool_word(
                f,
                i,
            ) == 0
        &&& forall|f: int, i: int|
            0 <= f < POOL_FRAMES && 0 <= i < 512 && self.level_of(f) >= 2 ==> #[trigger] self.pool_word(
                f,
                i,
            ) == 0 || self.owned_entry(self.pool_word(f, i), (self.level_of(f) - 1) as u8)
        &&& self.free_virt_remaps.wf()
        &&& self.free_slots().no_duplicates()
        &&& all_below(self.free_slots(), REMAP_SLOTS as int)
        &&& self.identity_slots <= REMAP_SLOTS
        &&& forall|k: int|
            0 <= k < self.free_slots().len() ==> self.identity_slots <= #[trigger] self.free_slots()[k]
        &&& forall|i: int|
            0 <= i < self.identity_slots ==> #[trigger] self.root_word(i) == 0 || self.owned_entry(
                self.root_word(i),
                3,
            )
    }

    /// A consistent table lies below the physical limit, page aligned.
    pub proof fn lemma_wf_root(&self)
        requires
            self.wf(),
        ensures
            self.memory().wf(),
            self.root() % PAGE_SIZE == 0,
            self.root() + PAGE_SIZE * (POOL_FRAMES + 1) <= PHYS_LIMIT,
            self.free_slots().no_duplicates(),
            all_below(self.free_slots(), REMAP_SLOTS as int),
            self.model().root == self.root(),
            self.model().words == self.memory().words(),
            self.model().words.len() == 512 * (POOL_FRAMES + 1),
            self.model().levels.len() == POOL_FRAMES,
            self.model().free.len() == self.free_frames(),
            self.model().free.no_duplicates(),
            all_below(self.model().free, POOL_FRAMES as int),
    {
        reveal(IdentityPageTable::wf);
    }

    /// Entry `index` of the root table is the word at `root + 8 * index`.
    proof fn lemma_root_word(&self, index: int)
        requires
            self.wf(),
            0 <= index < 512,
        ensures
            self.memory.contains((self.root() + 8 * index) as u64),
            self.memory.word_index((self.root() + 8 * index) as u64) == index,
            self.memory.read_spec((self.root() + 8 * index) as u64) == self.root_word(index),
    {
        reveal(IdentityPageTable::wf);
    }

    /// Word `index` of pool frame `frame` is the word at that place of memory.
    proof fn lemma_pool_word(&self, frame: int, index: int)
        requires
            self.wf(),
            0 <= frame < POOL_FRAMES,
            0 <= index < 512,
        ensures
            self.memory.contains((self.pool_base() + frame * 4096 + 8 * index) as u64),
            self.memory.word_index((self.pool_base() + frame * 4096 + 8 * index) as u64) == (frame
                + 1) * 512 + index,
            self.memory.read_spec((self.pool_base() + frame * 4096 + 8 * index) as u64)
                == self.pool_word(frame, index),
    {
        reveal(IdentityPageTable::wf);
    }

    /// Why the walk to the table of `child_level` cannot go through `entry`,
    /// if it cannot: an empty entry needs a free frame, any other entry must
    /// point to a table of that level in the pool.
    pub open spec fn step_error(&self, entry: u64, child_level: u8) -> Option<MapToError> {
        if entry == 0 {
            if self.free_frames() == 0 {
                Some(MapToError::FrameAllocationFailed)
            } else {
                None
            }
        } else if entry_large(entry) {
            Some(MapToError::ParentEntryHugePage)
        } else if !self.is_table(entry & ADDR_MASK_4K, child_level) {
            Some(MapToError::TableOutOfReach)
        } else {
            None
        }
    }

    /// Whether `table` is a table whose entries point to tables of
    /// `child_level`: the root for level 3, a pool table one level up else.
    pub open spec fn parent_of(&self, table: u64, child_level: u8) -> bool {
        if child_level == 3 {
            table == self.root()
        } else {
            1 <= child_level <= 2 && self.is_table(table, (child_level + 1) as u8)
        }
    }

    /// Whether `addr` is the start of a pool frame that holds a table of `level`.
    fn holds_table(&self, addr: u64, level: u8) -> (held: bool)
        requires
            self.wf(),
        ensures
            held == self.is_table(addr, level),
    {
        proof {
            reveal(IdentityPageTable::wf);
        }
        let pool: u64 = self.memory.base_addr() + PAGE_SIZE;
        if addr < pool || addr - pool >= (POOL_FRAMES as u64) * PAGE_SIZE || (addr - pool)
            % PAGE_SIZE != 0 {
            false
        } else {
            let frame: usize = ((addr - pool) / PAGE_SIZE) as usize;
            self.levels[frame] == level
        }
    }

    /// Follows entry `offset / 8` of `table` to the table of `child_level`
    /// that it points to, and returns that table's address. An empty entry
    /// gets a frame from the pool first, which holds zeros, and is made to
    /// point to it; another entry gets the present and writable flags before
    /// it is followed.
    fn next_table(&mut self, table: u64, offset: u64, child_level: u8) -> (next: Result<
        u64,
        MapToError,
    >)
        requires
            old(self).wf(),
            old(self).parent_of(table, child_level),
            offset % 8 == 0,
            offset < PAGE_SIZE,
        ensures
            final(self).wf(),
            final(self).root() == old(self).root(),
            final(self).free_slots() == old(self).free_slots(),
            final(self).identity_top() == old(self).identity_top(),
            match next {
                Ok(child) => {
                    &&& old(self).step_error(
                        old(self).memory().read_spec((table + offset) as u64),
                        child_level,
                    ) is None
                    &&& final(self).is_table(child, child_level)
                    &&& final(self).memory().read_spec((table + offset) as u64) & ADDR_MASK_4K
                        == child
                    &&& entry_present(final(self).memory().read_spec((table + offset) as u64))
                    &&& entry_writable(final(self).memory().read_spec((table + offset) as u64))
                    &&& !entry_large(final(self).memory().read_spec((table + offset) as u64))
                    &&& final(self).memory().read_spec((table + offset) as u64) != 0
                    &&& old(self).memory().read_spec((table + offset) as u64) == 0 ==> {
                        &&& final(self).free_frames() == old(self).free_frames() - 1
                        &&& forall|i: int|
                            0 <= i < 512 ==> final(self).memory().read_spec(
                                #[trigger] ((child + 8 * i) as u64),
                            ) == 0
                    }
                    &&& old(self).memory().read_spec((table + offset) as u64) != 0 ==> {
                        &&& final(self).free_frames() == old(self).free_frames()
                        &&& child == old(self).memory().read_spec((table + offset) as u64)
                            & ADDR_MASK_4K
                    }
                },
                Err(cause) => {
                    &&& old(self).step_error(
                        old(self).memory().read_spec((table + offset) as u64),
                        child_level,
                    ) == Some(cause)
                    &&& old(self).memory().read_spec((table + offset) as u64) == 0
                        ==> final(self).memory() == old(self).memory()
                    &&& final(self).free_frames() == old(self).free_frames()
                },
            },
            forall|x: u64|
                x != table + offset ==> #[trigger] final(self).memory().read_spec(x) == old(
                    self,
                ).memory().read_spec(x),
            forall|addr: u64, level: u8|
                level >= 1 && #[trigger] old(self).is_table(addr, level) ==> final(self).is_table(
                    addr,
                    level,
                ),
            keeps_walks(old(self).memory(), final(self).memory(), old(self).root()),
            final(self).model() == old(self).model().next_table(
                (table + offset) as u64,
                child_level,
            ).0,
            next == old(self).model().next_table((table + offset) as u64, child_level).1,
    {
        proof {
            reveal(IdentityPageTable::wf);
        }
        let root: u64 = self.memory.base_addr();
        let pool: u64 = root + PAGE_SIZE;
        proof {
            lemma_keeps_walks_same(self.memory, root);
        }
        let flags: u64 = present_writable();
        let at: u64 = table + offset;
        let entry: u64 = self.memory.read(at);
        let ghost before = *self;
        let ghost slot = offset as int / 8;
        proof {
            if child_level == 3 {
                before.lemma_root_word(slot);
            } else {
                before.lemma_pool_word(before.frame_index(table), slot);
            }
            lemma_flag_bits(entry);
        }
        if entry == 0 {
            match self.allocator.allocate_frame() {
                None => {
                    proof {
                        Self::lemma_wf_carries(before, *self, -1);
                    }
                    assert(self.model() =~= before.model());
                    Err(MapToError::FrameAllocationFailed)
                },
                Some(frame) => {
                    let index: usize = ((frame - pool) / PAGE_SIZE) as usize;
                    proof {
                        lemma_table_entry_bits(frame);
                    }
                    self.levels.set(index, child_level);
                    self.memory.write(at, frame | flags);
                    proof {
                        let after = *self;
                        assert forall|f: int| 0 <= f < POOL_FRAMES implies #[trigger] after.level_of(
                            f,
                        ) == if f == index {
                            child_level
                        } else {
                            before.level_of(f)
                        } by {}
                        assert forall|i: int| 0 <= i < 512 implies #[trigger] after.root_word(i)
                            == if i == before.memory.word_index(at) {
                            (frame | TABLE_FLAGS) as u64
                        } else {
                            before.root_word(i)
                        } by {}
                        assert forall|x: u64| after.memory.read_spec(x) == if x == at {
                            (frame | TABLE_FLAGS) as u64
                        } else {
                            before.memory.read_spec(x)
                        } by {
                            crate::phys_mem::lemma_write_read(
                                before.memory,
                                after.memory,
                                at,
                                (frame | TABLE_FLAGS) as u64,
                                x,
                            );
                        }
                        assert forall|f: int, i: int|
                            0 <= f < POOL_FRAMES && 0 <= i < 512 implies #[trigger] after.pool_word(
                            f,
                            i,
                        ) == if (f + 1) * 512 + i == before.memory.word_index(at) {
                            (frame | TABLE_FLAGS) as u64
                        } else {
                            before.pool_word(f, i)
                        } by {}
                        assert forall|k: int|
                            0 <= k < after.allocator.free().len() implies after.level_of(
                            #[trigger] after.allocator.free()[k] as int,
                        ) == 0 by {}
                        assert forall|f: int, i: int|
                            0 <= f < POOL_FRAMES && 0 <= i < 512 && after.level_of(f)
                                >= 2 implies #[trigger] after.pool_word(f, i) == 0
                            || after.owned_entry(
                            after.pool_word(f, i),
                            (after.level_of(f) - 1) as u8,
                        ) by {
                            if (f + 1) * 512 + i == before.memory.word_index(at) {
                            } else if f == index {
                            } else {
                                let e = before.pool_word(f, i);
                                if e != 0 {
                                    assert(before.frame_index((e & ADDR_MASK_4K) as u64) != index);
                                }
                            }
                        }
                        assert forall|addr: u64, level: u8|
                            level >= 1 && #[trigger] before.is_table(
                                addr,
                                level,
                            ) implies after.is_table(addr, level) by {}
                        assert forall|i: int| 0 <= i < 512 implies after.memory.read_spec(
                            #[trigger] ((frame + 8 * i) as u64),
                        ) == 0 by {
                            before.lemma_pool_word(index as int, i);
                        }
                        lemma_write_keeps_walks(
                            before.memory,
                            after.memory,
                            at,
                            (frame | TABLE_FLAGS) as u64,
                            root,
                        );
                        assert(0u64 & 0x1 == 0) by (bit_vector);
                    }
                    Ok(frame)
                },
            }
        } else {
            if entry & flags != flags {
                self.memory.write(at, entry | flags);
                proof {
                    let after = *self;
                    Self::lemma_words_carry(before, after, before.memory.word_index(at));
                    assert forall|x: u64| after.memory.read_spec(x) == if x == at {
                        (entry | TABLE_FLAGS) as u64
                    } else {
                        before.memory.read_spec(x)
                    } by {
                        crate::phys_mem::lemma_write_read(
                            before.memory,
                            after.memory,
                            at,
                            (entry | TABLE_FLAGS) as u64,
                            x,
                        );
                    }
                    lemma_write_keeps_walks(
                        before.memory,
                        after.memory,
                        at,
                        (entry | TABLE_FLAGS) as u64,
                        root,
                    );
                }
            } else {
                assert(entry & 0x3 == 0x3 ==> entry & 0x1 != 0 && entry | 0x3 == entry)
                    by (bit_vector);
                assert(self.model() =~= before.model().next_table(at, child_level).0);
            }
            if is_large_page(entry) {
                return Err(MapToError::ParentEntryHugePage);
            }
            let target: u64 = entry & ADDR_MASK_4K;
            if !self.holds_table(target, child_level) {
                return Err(MapToError::TableOutOfReach);
            }
            Ok(target)
        }
    }

    /// How mapping the page at `virt` ends. An empty entry on the way needs a
    /// frame for every level below it; an entry of the root that is not
    /// empty must point to an upper directory in the pool; the page itself
    /// must not be mapped yet.
    pub open spec fn map_outcome(&self, virt: u64) -> Result<(), MapToError> {
        let pml4e = walk_pml4e(self.memory(), self.root(), virt);
        let pdpte = walk_pdpte(self.memory(), self.root(), virt);
        let pde = walk_pde(self.memory(), self.root(), virt);
        let pte = walk_pte(self.memory(), self.root(), virt);
        if pml4e == 0 {
            if self.free_frames() < 3 {
                Err(MapToError::FrameAllocationFailed)
            } else {
                Ok(())
            }
        } else if entry_large(pml4e) {
            Err(MapToError::ParentEntryHugePage)
        } else if !self.is_table(pml4e & ADDR_MASK_4K, 3) {
            Err(MapToError::TableOutOfReach)
        } else if pdpte == 0 {
            if self.free_frames() < 2 {
                Err(MapToError::FrameAllocationFailed)
            } else {
                Ok(())
            }
        } else if pde == 0 {
            if self.free_frames() < 1 {
                Err(MapToError::FrameAllocationFailed)
            } else {
                Ok(())
            }
        } else if pte != 0 {
            Err(MapToError::PageAlreadyMapped)
        } else {
            Ok(())
        }
    }

    /// Two tables of different levels lie in different frames.
    proof fn lemma_tables_apart(&self, a: u64, level_a: u8, b: u64, level_b: u8)
        requires
            self.wf(),
            self.is_table(a, level_a),
            self.is_table(b, level_b),
            level_a != level_b,
        ensures
            a + PAGE_SIZE <= b || b + PAGE_SIZE <= a,
            self.root() + PAGE_SIZE <= a,
            self.root() + PAGE_SIZE <= b,
            a + PAGE_SIZE <= PHYS_LIMIT,
            b + PAGE_SIZE <= PHYS_LIMIT,
            a % PAGE_SIZE == 0,
            b % PAGE_SIZE == 0,
    {
        reveal(IdentityPageTable::wf);
    }

    /// In a table of level 3 or 2, an entry that is not empty points to a
    /// table of the next level.
    proof fn lemma_entry_owned(&self, table: u64, level: u8, index: int)
        requires
            self.wf(),
            self.is_table(table, level),
            level >= 2,
            0 <= index < 512,
        ensures
            self.memory().read_spec((table + 8 * index) as u64) == 0 || self.owned_entry(
                self.memory().read_spec((table + 8 * index) as u64),
                (level - 1) as u8,
            ),
    {
        reveal(IdentityPageTable::wf);
        let f = self.frame_index(table);
        self.lemma_pool_word(f, index);
    }

    /// A write to an entry of the root that is none of the table's own leaves
    /// the walk of an address that one of its own entries governs as it is.
    proof fn lemma_root_write_keeps_walk(&self, after: PhysMemory, index: int, word: u64, addr: u64)
        requires
            self.wf(),
            self.identity_top() <= index < 512,
            forall|x: u64|
                after.read_spec(x) == if x == self.root() + 8 * index {
                    word
                } else {
                    self.memory().read_spec(x)
                },
            pml4_index(addr) < self.identity_top(),
        ensures
            walk(after, self.root(), addr) == walk(self.memory(), self.root(), addr),
            writable_walk(after, self.root(), addr) == writable_walk(
                self.memory(),
                self.root(),
                addr,
            ),
    {
        reveal(IdentityPageTable::wf);
        let root = self.root();
        let mem = self.memory();
        assert(pml4_index(addr) < 512 && pdpt_index(addr) < 512 && pd_index(addr) < 512
            && pt_index(addr) < 512) by {
            assert((addr >> 39) & 0x1ff < 512 && (addr >> 30) & 0x1ff < 512 && (addr >> 21) & 0x1ff
                < 512 && (addr >> 12) & 0x1ff < 512) by (bit_vector);
        }
        assert(0u64 & 0x1 == 0) by (bit_vector);
        lemma_aligned_is_table(root);
        lemma_entry_address(root, pml4_index(addr));
        self.lemma_root_word(pml4_index(addr) as int);
        let e4 = walk_pml4e(mem, root, addr);
        assert(e4 == self.root_word(pml4_index(addr) as int));
        assert(walk_pml4e(after, root, addr) == e4);
        if e4 != 0 {
            let t3 = (e4 & ADDR_MASK_4K) as u64;
            assert(self.is_table(t3, 3));
            lemma_entry_address(e4, pdpt_index(addr));
            self.lemma_entry_owned(t3, 3, pdpt_index(addr) as int);
            let e3 = walk_pdpte(mem, root, addr);
            assert(walk_pdpte(after, root, addr) == e3);
            if e3 != 0 {
                let t2 = (e3 & ADDR_MASK_4K) as u64;
                assert(self.is_table(t2, 2));
                lemma_entry_address(e3, pd_index(addr));
                self.lemma_entry_owned(t2, 2, pd_index(addr) as int);
                let e2 = walk_pde(mem, root, addr);
                assert(walk_pde(after, root, addr) == e2);
                if e2 != 0 {
                    let t1 = (e2 & ADDR_MASK_4K) as u64;
                    assert(self.is_table(t1, 1));
                    lemma_entry_address(e2, pt_index(addr));
                    assert(walk_pte(after, root, addr) == walk_pte(mem, root, addr));
                }
            }
        }
    }

    /// A write to an entry of the root that is none of the table's own leaves
    /// the walks through its own entries as they are.
    proof fn lemma_root_write_keeps_own(&self, after: PhysMemory, index: int, word: u64)
        requires
            self.wf(),
            self.identity_top() <= index < 512,
            forall|x: u64|
                after.read_spec(x) == if x == self.root() + 8 * index {
                    word
                } else {
                    self.memory().read_spec(x)
                },
        ensures
            same_walks_below(self.memory(), after, self.root(), self.identity_top()),
    {
        reveal(same_walks_below);
        assert forall|addr: u64| pml4_index(addr) < self.identity_top() implies #[trigger] walk(
            after,
            self.root(),
            addr,
        ) == walk(self.memory(), self.root(), addr) by {
            self.lemma_root_write_keeps_walk(after, index, word, addr);
        }
        assert forall|addr: u64|
            pml4_index(addr) < self.identity_top() implies #[trigger] writable_walk(
            after,
            self.root(),
            addr,
        ) == writable_walk(self.memory(), self.root(), addr) by {
            self.lemma_root_write_keeps_walk(after, index, word, addr);
        }
    }

    /// Two tables with the same levels whose words agree, but for the one at
    /// `changed`, hold the same levels and the same words of the root and of
    /// the pool, but for that one.
    proof fn lemma_words_carry(before: Self, after: Self, changed: int)
        requires
            after.levels@ == before.levels@,
            after.memory.words().len() == before.memory.words().len(),
            before.memory.words().len() == 512 * (POOL_FRAMES + 1),
            forall|k: int|
                0 <= k < before.memory.words().len() && k != changed ==> after.memory.words()[k]
                    == before.memory.words()[k],
        ensures
            forall|f: int| #[trigger] after.level_of(f) == before.level_of(f),
            forall|f: int, i: int|
                0 <= f < POOL_FRAMES && 0 <= i < 512 && (f + 1) * 512 + i != changed
                    ==> #[trigger] after.pool_word(f, i) == before.pool_word(f, i),
            forall|i: int|
                0 <= i < 512 && i != changed ==> #[trigger] after.root_word(i) == before.root_word(
                    i,
                ),
    {
    }

    /// A table stays consistent when nothing changes but an entry of the
    /// root that is not one of its own, the free slots, which stay distinct
    /// and behind its own entries, and the number of its own entries, which
    /// does not grow.
    proof fn lemma_wf_carries(before: Self, after: Self, changed: int)
        requires
            before.wf(),
            after.levels@ == before.levels@,
            after.allocator.wf(),
            after.allocator.base() == before.allocator.base(),
            after.allocator.free() == before.allocator.free(),
            after.memory.wf(),
            after.memory.base() == before.memory.base(),
            after.memory.words().len() == before.memory.words().len(),
            forall|k: int|
                0 <= k < before.memory.words().len() && k != changed ==> after.memory.words()[k]
                    == before.memory.words()[k],
            changed < 0 || after.identity_slots <= changed < 512,
            after.identity_slots <= before.identity_slots,
            after.free_virt_remaps.wf(),
            after.free_slots().no_duplicates(),
            all_below(after.free_slots(), REMAP_SLOTS as int),
            forall|k: int|
                0 <= k < after.free_slots().len() ==> after.identity_slots
                    <= #[trigger] after.free_slots()[k],
        ensures
            after.wf(),
    {
        reveal(IdentityPageTable::wf);
        Self::lemma_words_carry(before, after, changed);
        assert(after.allocator.free() == before.allocator.free());
    }

    /// Storing the entry of a page in a page table keeps the table consistent.
    proof fn lemma_page_entry_keeps_wf(before: Self, after: Self, table: u64, index: int, word: u64)
        requires
            before.wf(),
            before.is_table(table, 1),
            0 <= index < 512,
            after.memory.wf(),
            after.memory.base() == before.memory.base(),
            after.memory.words() == before.memory.words().update(
                before.memory.word_index((table + 8 * index) as u64),
                word,
            ),
            after.allocator == before.allocator,
            after.levels == before.levels,
            after.free_virt_remaps == before.free_virt_remaps,
            after.identity_slots == before.identity_slots,
        ensures
            after.wf(),
    {
        reveal(IdentityPageTable::wf);
        let frame = before.frame_index(table);
        before.lemma_pool_word(frame, index);
        Self::lemma_words_carry(before, after, (frame + 1) * 512 + index);
    }

    /// Maps the page at `virt` to the frame at `phys`, present and writable,
    /// creating the tables on the way that are missing. Translations that
    /// were there stay, also when the mapping fails.
    #[verifier::rlimit(50)]
    pub fn map_page(&mut self, virt: u64, phys: u64) -> (mapped: Result<(), MapToError>)
        requires
            old(self).wf(),
            virt % PAGE_SIZE == 0,
            phys % PAGE_SIZE == 0,
            phys < PHYS_LIMIT,
        ensures
            final(self).wf(),
            final(self).root() == old(self).root(),
            final(self).free_slots() == old(self).free_slots(),
            final(self).identity_top() == old(self).identity_top(),
            mapped == old(self).map_outcome(virt),
            mapped is Ok ==> forall|addr: u64|
                virt <= addr < virt + PAGE_SIZE ==> #[trigger] translate(
                    final(self).memory(),
                    final(self).root(),
                    addr,
                ) == Some((phys + (addr - virt)) as u64) && writable_walk(
                    final(self).memory(),
                    final(self).root(),
                    addr,
                ),
            keeps_walks(old(self).memory(), final(self).memory(), old(self).root()),
            final(self).model() == old(self).model().map_page(virt, phys).0,
            mapped == old(self).model().map_page(virt, phys).1,
    {
        let ghost s0 = *self;
        let root: u64 = self.memory.base_addr();
        let off4 = pml4_index_bits(virt);
        let off3 = pdpte_index_bits(virt);
        let off2 = pd_index_bits(virt);
        let off1 = pt_index_bits(virt);
        proof {
            s0.lemma_wf_root();
            lemma_aligned_is_table(root);
            lemma_entry_address(root, pml4_index(virt));
        }
        let ghost e4 = s0.memory.read_spec((root + off4) as u64);
        proof {
            lemma_entry_address(e4, pdpt_index(virt));
        }
        let t3 = match self.next_table(root, off4, 3) {
            Ok(table) => table,
            Err(cause) => {
                return Err(cause);
            },
        };
        let ghost s1 = *self;
        let ghost e3 = s1.memory.read_spec((t3 + off3) as u64);
        proof {
            lemma_entry_table_bits(s1.memory.read_spec((root + off4) as u64));
            if e4 != 0 {
                lemma_flag_bits(e4);
                s1.lemma_entry_owned(t3, 3, pdpt_index(virt) as int);
            }
            lemma_entry_address(e3, pd_index(virt));
        }
        let t2 = match self.next_table(t3, off3, 2) {
            Ok(table) => table,
            Err(cause) => {
                return Err(cause);
            },
        };
        let ghost s2 = *self;
        let ghost e2 = s2.memory.read_spec((t2 + off2) as u64);
        proof {
            s2.lemma_tables_apart(t3, 3, t2, 2);
            if e4 != 0 && e3 != 0 {
                lemma_flag_bits(e3);
                s2.lemma_entry_owned(t2, 2, pd_index(virt) as int);
            }
            lemma_entry_address(e2, pt_index(virt));
            lemma_keeps_walks_chain(s0.memory, s1.memory, s2.memory, root);
        }
        let t1 = match self.next_table(t2, off2, 1) {
            Ok(table) => table,
            Err(cause) => {
                return Err(cause);
            },
        };
        let ghost s3 = *self;
        proof {
            s3.lemma_tables_apart(t3, 3, t1, 1);
            s3.lemma_tables_apart(t2, 2, t1, 1);
            s3.lemma_tables_apart(t3, 3, t2, 2);
            s3.lemma_pool_word(s3.frame_index(t1), pt_index(virt) as int);
            if e4 != 0 && e3 != 0 && e2 != 0 {
                lemma_flag_bits(e2);
            }
            lemma_keeps_walks_chain(s0.memory, s2.memory, s3.memory, root);
            s3.lemma_wf_root();
        }
        let at: u64 = t1 + off1;
        if self.memory.read(at) != 0 {
            return Err(MapToError::PageAlreadyMapped);
        }
        self.memory.write(at, phys | present_writable());
        proof {
            let after = *self;
            let word = (phys | TABLE_FLAGS) as u64;
            assert forall|x: u64| after.memory.read_spec(x) == if x == at {
                word
            } else {
                s3.memory.read_spec(x)
            } by {
                crate::phys_mem::lemma_write_read(s3.memory, after.memory, at, word, x);
            }
            Self::lemma_page_entry_keeps_wf(s3, after, t1, pt_index(virt) as int, word);
            assert(0u64 & 0x1 == 0) by (bit_vector);
            lemma_write_keeps_walks(s3.memory, after.memory, at, word, root);
            lemma_keeps_walks_chain(s0.memory, s3.memory, after.memory, root);
            assert forall|addr: u64| virt <= addr < virt + PAGE_SIZE implies #[trigger] translate(
                after.memory,
                root,
                addr,
            ) == Some((phys + (addr - virt)) as u64) && writable_walk(after.memory, root, addr) by {
                lemma_new_page_walk(after.memory, root, virt, addr, t3, t2, t1, phys);
            }
        }
        Ok(())
    }

    /// Maps every page of every region of `mem_maps` to itself, present and
    /// writable. Then the entries of the root whose index lies strictly
    /// above the end of the highest region, divided by the span of an entry
    /// and rounded up, become the free remapping slots. Stops at the first
    /// page that cannot be mapped and reports the region and the cause; the
    /// slots are then as before. Translations that were there stay either
    /// way.
    #[verifier::rlimit(40)]
    pub fn create_identity_mapping(&mut self, mem_maps: &EfiMemMaps) -> (built: Result<
        (),
        PageTableError,
    >)
        requires
            old(self).wf(),
        ensures
            final(self).wf(),
            final(self).root() == old(self).root(),
            match built {
                Ok(()) => {
                    &&& forall|i: int, addr: u64|
                        0 <= i < mem_maps@.len() && #[trigger] mem_maps@[i].covers(addr)
                            ==> translate(final(self).memory(), final(self).root(), addr) == Some(
                            addr,
                        ) && writable_walk(final(self).memory(), final(self).root(), addr)
                    &&& forall|i: int|
                        0 <= i < mem_maps@.len() ==> region_error(#[trigger] mem_maps@[i]) is None
                    &&& final(self).free_slots() == slots_from(
                        first_slot_above(highest_end(mem_maps@)) + 1,
                    )
                    &&& highest_end(mem_maps@) <= CANONICAL_LIMIT
                    &&& final(self).identity_top() == if first_slot_above(highest_end(mem_maps@))
                        + 1 < old(self).identity_top() {
                        first_slot_above(highest_end(mem_maps@)) + 1
                    } else {
                        old(self).identity_top()
                    }
                },
                Err(PageTableError::MappingFailed(region, cause)) => {
                    &&& exists|i: int| 0 <= i < mem_maps@.len() && mem_maps@[i] == region
                    &&& region.page_count > 0
                    &&& final(self).free_slots() == old(self).free_slots()
                    &&& final(self).identity_top() == old(self).identity_top()
                },
                Err(_) => false,
            },
            keeps_walks(old(self).memory(), final(self).memory(), old(self).root()),
            final(self).model() == old(self).model().map_regions(mem_maps@).0,
            built == old(self).model().map_regions(mem_maps@).1,
    {
        proof {
            reveal(IdentityPageTable::wf);
        }
        proof {
            lemma_keeps_walks_same(self.memory, self.root());
        }
        let ghost target = self.model().map_regions(mem_maps@);
        let ghost root = self.root();
        let ghost start_memory = self.memory;
        let regions = mem_maps.iter();
        let mut largest_identity_mapping: u64 = 0;
        let mut k: usize = 0;
        assert(regions@.skip(0) =~= regions@);
        while k < regions.len()
            invariant
                k <= regions@.len(),
                regions@ == mem_maps@,
                target == old(self).model().map_regions(mem_maps@),
                target == self.model().map_regions(regions@.skip(k as int)),
                root == old(self).root(),
                start_memory == old(self).memory(),
                self.wf(),
                self.root() == root,
                self.free_slots() == old(self).free_slots(),
                self.identity_top() == old(self).identity_top(),
                largest_identity_mapping == highest_end(regions@.take(k as int)),
                largest_identity_mapping <= CANONICAL_LIMIT,
                forall|i: int, addr: u64|
                    0 <= i < k && #[trigger] regions@[i].covers(addr) ==> translate(
                        self.memory(),
                        root,
                        addr,
                    ) == Some(addr) && writable_walk(self.memory(), root, addr),
                forall|i: int| 0 <= i < k ==> region_error(#[trigger] regions@[i]) is None,
                keeps_walks(start_memory, self.memory(), root),
            decreases regions@.len() - k,
        {
            let mem_map: MemoryRegion = regions[k];
            let ghost region_start = self.model();
            proof {
                assert(regions@.take(k + 1).drop_last() == regions@.take(k as int));
                assert(regions@.skip(k as int).drop_first() =~= regions@.skip(k + 1));
            }
            if mem_map.page_count > 0 {
                if mem_map.physical_start % PAGE_SIZE != 0 {
                    return Err(
                        PageTableError::MappingFailed(mem_map, MapToError::IncompatibleAlignment),
                    );
                }
                if mem_map.page_count > CANONICAL_LIMIT / PAGE_SIZE || mem_map.physical_start
                    > CANONICAL_LIMIT - mem_map.page_count * PAGE_SIZE {
                    return Err(
                        PageTableError::MappingFailed(mem_map, MapToError::AddressOutOfRange),
                    );
                }
                let mut pages_done: u64 = 0;
                while pages_done < mem_map.page_count
                    invariant
                        pages_done <= mem_map.page_count,
                        k < regions@.len(),
                        target == old(self).model().map_regions(mem_maps@),
                        target == region_start.map_regions(regions@.skip(k as int)),
                        region_error(mem_map) is None,
                        regions@.skip(k as int).first() == mem_map,
                        region_start.map_pages(
                            mem_map.physical_start,
                            mem_map.physical_start,
                            mem_map.page_count as nat,
                        ) == self.model().map_pages(
                            (mem_map.physical_start + pages_done * PAGE_SIZE) as u64,
                            (mem_map.physical_start + pages_done * PAGE_SIZE) as u64,
                            (mem_map.page_count - pages_done) as nat,
                        ),
                        regions@ == mem_maps@,
                        root == old(self).root(),
                        start_memory == old(self).memory(),
                        mem_map == regions@[k as int],
                        mem_map.physical_start % PAGE_SIZE == 0,
                        mem_map.physical_start + mem_map.page_count * PAGE_SIZE <= CANONICAL_LIMIT,
                        self.wf(),
                        self.root() == root,
                        self.free_slots() == old(self).free_slots(),
                        self.identity_top() == old(self).identity_top(),
                        forall|i: int, addr: u64|
                            0 <= i < k && #[trigger] regions@[i].covers(addr) ==> translate(
                                self.memory(),
                                root,
                                addr,
                            ) == Some(addr) && writable_walk(self.memory(), root, addr),
                        forall|addr: u64|
                            mem_map.physical_start <= addr < mem_map.physical_start + pages_done
                                * PAGE_SIZE ==> #[trigger] translate(self.memory(), root, addr)
                                == Some(addr) && writable_walk(self.memory(), root, addr),
                        keeps_walks(start_memory, self.memory(), root),
                    decreases mem_map.page_count - pages_done,
                {
                    let map_addr: u64 = mem_map.physical_start + pages_done * PAGE_SIZE;
                    let ghost before = self.memory;
                    let outcome = self.map_page(map_addr, map_addr);
                    proof {
                        lemma_keeps_walks_chain(start_memory, before, self.memory, root);
                    }
                    match outcome {
                        Ok(()) => {},
                        Err(cause) => {
                            return Err(PageTableError::MappingFailed(mem_map, cause));
                        },
                    }
                    proof {
                        assert forall|addr: u64|
                            mem_map.physical_start <= addr < mem_map.physical_start + (pages_done
                                + 1) * PAGE_SIZE implies #[trigger] translate(
                            self.memory(),
                            root,
                            addr,
                        ) == Some(addr) && writable_walk(self.memory(), root, addr) by {
                            if addr < map_addr {
                                lemma_kept_translation(before, self.memory, root, addr);
                            }
                        }
                        assert forall|i: int, addr: u64|
                            0 <= i < k && #[trigger] regions@[i].covers(addr) implies translate(
                            self.memory(),
                            root,
                            addr,
                        ) == Some(addr) && writable_walk(self.memory(), root, addr) by {
                            lemma_kept_translation(before, self.memory, root, addr);
                        }
                    }
                    pages_done += 1;
                }
                let end: u64 = mem_map.physical_start + mem_map.page_count * PAGE_SIZE;
                if end > largest_identity_mapping {
                    largest_identity_mapping = end;
                }
            }
            k += 1;
        }
        let remap_pml4_id: usize = ((largest_identity_mapping + (REMAP_SIZE - 1))
            / REMAP_SIZE) as usize + 1;
        let mut slots: ConcurrentStaticVec<usize, REMAP_SLOTS> = ConcurrentStaticVec::new();
        let mut slot: usize = remap_pml4_id;
        while slot < REMAP_SLOTS
            invariant
                remap_pml4_id <= slot <= REMAP_SLOTS,
                slots.wf(),
                slots@ == Seq::new(
                    (slot - remap_pml4_id) as nat,
                    |i: int| (remap_pml4_id + i) as usize,
                ),
            decreases REMAP_SLOTS - slot,
        {
            slots.push(slot);
            slot += 1;
        }
        let ghost mapped = *self;
        self.free_virt_remaps = slots;
        if remap_pml4_id < self.identity_slots {
            self.identity_slots = remap_pml4_id;
        }
        proof {
            Self::lemma_wf_carries(mapped, *self, -1);
        }
        Ok(())
    }

    /// Maps the pages that the `size` bytes at `phys` touch to the virtual
    /// addresses that start at `virt`, present and writable. A page that
    /// cannot be mapped is passed over and the next one is tried; the call
    /// fails only when the range as a whole cannot be mapped, and then
    /// changes nothing. Translations that were there stay.
    #[verifier::rlimit(40)]
    pub fn map_to_virt(&mut self, phys: u64, virt: u64, size: u64) -> (mapped: Result<
        (),
        MapToError,
    >)
        requires
            old(self).wf(),
        ensures
            final(self).wf(),
            final(self).root() == old(self).root(),
            final(self).free_slots() == old(self).free_slots(),
            final(self).identity_top() == old(self).identity_top(),
            keeps_walks(old(self).memory(), final(self).memory(), old(self).root()),
            range_error(phys, virt, size) is Some ==> mapped == Err::<(), MapToError>(
                range_error(phys, virt, size)->0,
            ) && final(self).memory() == old(self).memory() && final(self).model() == old(
                self,
            ).model(),
            range_error(phys, virt, size) is None ==> mapped is Ok && final(self).model() == old(
                self,
            ).model().map_each(
                page_start(virt) as u64,
                page_start(phys) as u64,
                ((pages_end(phys, size) - page_start(phys)) / (PAGE_SIZE as int)) as nat,
            ),
            range_error(phys, virt, size) is None ==> forall|k: int, addr: u64|
                0 <= k < (pages_end(phys, size) - page_start(phys)) / (PAGE_SIZE as int) && old(
                    self,
                ).model().maps_at(page_start(virt) as u64, page_start(phys) as u64, k)
                    && #[trigger] in_page(page_start(virt), k, addr) ==> translate(
                    final(self).memory(),
                    final(self).root(),
                    addr,
                ) == Some((page_start(phys) + (addr - page_start(virt))) as u64) && writable_walk(
                    final(self).memory(),
                    final(self).root(),
                    addr,
                ),
    {
        let ghost root = self.root();
        let ghost start_memory = self.memory;
        let ghost start_model = self.model();
        proof {
            lemma_keeps_walks_same(self.memory, root);
        }
        if virt % PAGE_SIZE != phys % PAGE_SIZE {
            return Err(MapToError::IncompatibleAlignment);
        }
        let start: u64 = phys - phys % PAGE_SIZE;
        let virt_start: u64 = virt - virt % PAGE_SIZE;
        if phys > PHYS_LIMIT || size > PHYS_LIMIT {
            return Err(MapToError::AddressOutOfRange);
        }
        let end: u64 = (phys + size + 0xfff) - (phys + size + 0xfff) % PAGE_SIZE;
        if end > PHYS_LIMIT || (end > start && end - start - 1 > u64::MAX - virt_start) {
            return Err(MapToError::AddressOutOfRange);
        }
        let pages: u64 = (end - start) / PAGE_SIZE;
        let mut done: u64 = 0;
        while done < pages
            invariant
                done <= pages,
                range_error(phys, virt, size) is None,
                end == pages_end(phys, size),
                start == page_start(phys),
                virt_start == page_start(virt),
                pages * PAGE_SIZE == end - start,
                start % PAGE_SIZE == 0,
                virt_start % PAGE_SIZE == 0,
                end <= PHYS_LIMIT,
                start <= end,
                virt_start + (end - start) <= u64::MAX + 1,
                root == old(self).root(),
                start_memory == old(self).memory(),
                start_model == old(self).model(),
                self.model() == start_model.map_each(virt_start, start, done as nat),
                self.wf(),
                self.root() == root,
                self.free_slots() == old(self).free_slots(),
                self.identity_top() == old(self).identity_top(),
                keeps_walks(start_memory, self.memory(), root),
                forall|k: int, addr: u64|
                    0 <= k < done && start_model.maps_at(virt_start, start, k) && #[trigger] in_page(
                        virt_start as int,
                        k,
                        addr,
                    ) ==> translate(self.memory(), root, addr) == Some(
                        (start + (addr - virt_start)) as u64,
                    ) && writable_walk(self.memory(), root, addr),
            decreases pages - done,
        {
            let ghost before = self.memory;
            let _ = self.map_page(virt_start + done * PAGE_SIZE, start + done * PAGE_SIZE);
            proof {
                lemma_keeps_walks_chain(start_memory, before, self.memory, root);
                assert forall|k: int, addr: u64|
                    0 <= k < done + 1 && start_model.maps_at(virt_start, start, k)
                        && #[trigger] in_page(virt_start as int, k, addr) implies translate(
                    self.memory(),
                    root,
                    addr,
                ) == Some((start + (addr - virt_start)) as u64) && writable_walk(
                    self.memory(),
                    root,
                    addr,
                ) by {
                    if k < done {
                        lemma_kept_translation(before, self.memory, root, addr);
                    }
                }
            }
            done += 1;
        }
        Ok(())
    }

    /// Remaps a virtual address range of a foreign address space, given the
    /// entry of the foreign root that governs `virt_addr`.
    ///
    /// Takes a free slot, stores `entry` in that slot of this root, and
    /// returns the handle of the slot with the address at which `virt_addr`
    /// is seen under this root. Fails with `Unaligned` when the range leaves
    /// the span of one entry of the root, whether or not a slot is free, and
    /// with `NoFreeSlot` when none is.
    pub fn remap_entry(&mut self, virt_addr: u64, size: u64, entry: u64) -> (remapped: Result<
        (DropPush<usize>, u64),
        PageTableError,
    >)
        requires
            old(self).wf(),
        ensures
            final(self).wf(),
            final(self).root() == old(self).root(),
            final(self).free_frames() == old(self).free_frames(),
            final(self).identity_top() == old(self).identity_top(),
            same_walks_below(
                old(self).memory(),
                final(self).memory(),
                old(self).root(),
                old(self).identity_top(),
            ),
            !same_span(virt_addr, size) ==> remapped is Err && remapped->Err_0
                == PageTableError::Unaligned,
            same_span(virt_addr, size) && old(self).free_slots().len() == 0 ==> remapped is Err
                && remapped->Err_0 == PageTableError::NoFreeSlot,
            same_span(virt_addr, size) && old(self).free_slots().len() > 0 ==> remapped is Ok,
            match remapped {
                Ok((handle, addr)) => {
                    &&& handle@ == old(self).free_slots().last()
                    &&& old(self).identity_top() <= handle@ < REMAP_SLOTS
                    &&& !final(self).free_slots().contains(handle@)
                    &&& final(self).free_slots() == old(self).free_slots().drop_last()
                    &&& addr == handle@ * REMAP_SIZE + virt_addr % REMAP_SIZE
                    &&& forall|x: u64|
                        #[trigger] final(self).memory().read_spec(x) == if x == old(self).root() + 8
                            * handle@ {
                            entry
                        } else {
                            old(self).memory().read_spec(x)
                        }
                    &&& final(self).model() == old(self).model().written(
                        (old(self).root() + 8 * handle@) as u64,
                        entry,
                    )
                },
                Err(_) => {
                    &&& final(self).memory() == old(self).memory()
                    &&& final(self).free_slots() == old(self).free_slots()
                    &&& final(self).model() == old(self).model()
                },
            },
    {
        proof {
            reveal(IdentityPageTable::wf);
        }
        proof {
            lemma_same_walks_refl(self.memory, self.root(), self.identity_top());
        }
        let end: u64 = match virt_addr.checked_add(size) {
            Some(end) => end,
            None => {
                return Err(PageTableError::Unaligned);
            },
        };
        if virt_addr / REMAP_SIZE != end / REMAP_SIZE {
            return Err(PageTableError::Unaligned);
        }
        let ghost before = *self;
        proof {
            if before.free_slots().len() > 0 {
                lemma_top_leaves(before.free_slots());
            }
        }
        let handle = match DropPush::pop(&mut self.free_virt_remaps) {
            Some(handle) => handle,
            None => {
                proof {
                    assert(self.free_slots() == before.free_slots());
                    Self::lemma_wf_carries(before, *self, -1);
                }
                return Err(PageTableError::NoFreeSlot);
            },
        };
        let slot: usize = *handle.deref();
        let root: u64 = self.memory.base_addr();
        let at: u64 = root + 8 * (slot as u64);
        self.memory.write(at, entry);
        proof {
            let after = *self;
            before.lemma_root_word(slot as int);
            assert forall|x: u64| #[trigger] after.memory.read_spec(x) == if x == at {
                entry
            } else {
                before.memory.read_spec(x)
            } by {
                crate::phys_mem::lemma_write_read(before.memory, after.memory, at, entry, x);
            }
            assert forall|k: int| 0 <= k < after.free_slots().len() implies (
            #[trigger] after.free_slots()[k]) < REMAP_SLOTS && before.identity_slots
                <= after.free_slots()[k] by {
                assert(after.free_slots()[k] == before.free_slots()[k]);
            }
            assert(before.free_slots()[before.free_slots().len() - 1] >= before.identity_slots);
            Self::lemma_wf_carries(before, after, slot as int);
            before.lemma_root_write_keeps_own(after.memory, slot as int, entry);
        }
        let remapped_addr: u64 = (slot as u64) * REMAP_SIZE + virt_addr % REMAP_SIZE;
        Ok((handle, remapped_addr))
    }

    /// Address of the entry of the root at `root` that governs `virt_addr`.
    pub fn root_entry_address(root: u64, virt_addr: u64) -> (addr: u64)
        ensures
            addr == entry_address(root, pml4_index(virt_addr)),
    {
        (root & ADDR_MASK_4K) | pml4_index_bits(virt_addr)
    }

    /// Remaps a virtual address range of a foreign address space.
    ///
    /// Takes a free slot, copies the entry of the foreign root at `from_cr3`
    /// that governs `virt_addr` into that slot of this root, and returns the
    /// handle of the slot with the address at which `virt_addr` is seen
    /// under this root. `foreign` holds the foreign root. Fails with
    /// `Unaligned` when the range leaves the span of one entry of the root,
    /// whether or not a slot is free, and with `NoFreeSlot` when none is.
    pub fn remap_range(
        &mut self,
        virt_addr: u64,
        size: u64,
        foreign: &PhysMemory,
        from_cr3: u64,
    ) -> (remapped: Result<(DropPush<usize>, u64), PageTableError>)
        requires
            old(self).wf(),
            foreign.wf(),
        ensures
            final(self).wf(),
            final(self).root() == old(self).root(),
            final(self).free_frames() == old(self).free_frames(),
            final(self).identity_top() == old(self).identity_top(),
            same_walks_below(
                old(self).memory(),
                final(self).memory(),
                old(self).root(),
                old(self).identity_top(),
            ),
            !same_span(virt_addr, size) ==> remapped is Err && remapped->Err_0
                == PageTableError::Unaligned,
            same_span(virt_addr, size) && old(self).free_slots().len() == 0 ==> remapped is Err
                && remapped->Err_0 == PageTableError::NoFreeSlot,
            same_span(virt_addr, size) && old(self).free_slots().len() > 0 ==> remapped is Ok,
            match remapped {
                Ok((handle, addr)) => {
                    &&& handle@ == old(self).free_slots().last()
                    &&& old(self).identity_top() <= handle@ < REMAP_SLOTS
                    &&& !final(self).free_slots().contains(handle@)
                    &&& final(self).free_slots() == old(self).free_slots().drop_last()
                    &&& addr == handle@ * REMAP_SIZE + virt_addr % REMAP_SIZE
                    &&& forall|x: u64|
                        #[trigger] final(self).memory().read_spec(x) == if x == old(self).root() + 8
                            * handle@ {
                            foreign.read_spec(entry_address(from_cr3, pml4_index(virt_addr)))
                        } else {
                            old(self).memory().read_spec(x)
                        }
                    &&& final(self).model() == old(self).model().written(
                        (old(self).root() + 8 * handle@) as u64,
                        foreign.read_spec(entry_address(from_cr3, pml4_index(virt_addr))),
                    )
                },
                Err(_) => {
                    &&& final(self).memory() == old(self).memory()
                    &&& final(self).free_slots() == old(self).free_slots()
                    &&& final(self).model() == old(self).model()
                },
            },
    {
        let entry: u64 = foreign.read(Self::root_entry_address(from_cr3, virt_addr));
        self.remap_entry(virt_addr, size, entry)
    }

    /// Gives a lent slot back to the free slots. Returns whether it was
    /// taken: a slot that is free already, or that the root does not have,
    /// is refused and nothing changes.
    pub fn release(&mut self, handle: DropPush<usize>) -> (returned: bool)
        requires
            old(self).wf(),
        ensures
            final(self).wf(),
            final(self).root() == old(self).root(),
            final(self).memory() == old(self).memory(),
            final(self).free_frames() == old(self).free_frames(),
            final(self).identity_top() == old(self).identity_top(),
            final(self).model() == old(self).model(),
            returned == (old(self).identity_top() <= handle@ < REMAP_SLOTS && !old(
                self,
            ).free_slots().contains(handle@)),
            returned ==> final(self).free_slots() == old(self).free_slots().push(handle@),
            !returned ==> final(self).free_slots() == old(self).free_slots(),
    {
        proof {
            reveal(IdentityPageTable::wf);
        }
        let slot: usize = *handle.deref();
        if slot >= REMAP_SLOTS || slot < self.identity_slots || self.free_virt_remaps.holds(slot) {
            return false;
        }
        let ghost before = *self;
        proof {
            lemma_room_for_missing(before.free_slots(), REMAP_SLOTS as int, slot);
        }
        handle.release(&mut self.free_virt_remaps);
        proof {
            let after = *self;
            assert forall|k: int| 0 <= k < after.free_slots().len() implies before.identity_slots
                <= #[trigger] after.free_slots()[k] by {
                if k < before.free_slots().len() {
                    assert(after.free_slots()[k] == before.free_slots()[k]);
                }
            }
            Self::lemma_wf_carries(before, after, -1);
        }
        true
    }

    /// Copies the upper 256 entries of the foreign root at `dtb`, which
    /// `foreign` holds, into the upper half of this root.
    pub fn copy_pml4_entries(&mut self, foreign: &PhysMemory, dtb: u64) -> (copied: Result<
        (),
        PageTableError,
    >)
        requires
            old(self).wf(),
            foreign.wf(),
        ensures
            final(self).wf(),
            copied is Ok,
            final(self).root() == old(self).root(),
            final(self).free_slots() == old(self).free_slots(),
            final(self).identity_top() == if old(self).identity_top() < 256 {
                old(self).identity_top()
            } else {
                256
            },
            final(self).free_frames() == old(self).free_frames(),
            final(self).model().levels == old(self).model().levels,
            final(self).model().free == old(self).model().free,
            same_walks_below(
                old(self).memory(),
                final(self).memory(),
                old(self).root(),
                final(self).identity_top(),
            ),
            forall|x: u64|
                #[trigger] final(self).memory().read_spec(x) == high_half_copied(
                    old(self).memory(),
                    *foreign,
                    dtb,
                    old(self).root(),
                    x,
                ),
    {
        proof {
            reveal(IdentityPageTable::wf);
        }
        let root: u64 = self.memory.base_addr();
        if self.identity_slots > 256 {
            self.identity_slots = 256;
        }
        let ghost start = *self;
        proof {
            Self::lemma_wf_carries(*old(self), start, -1);
            lemma_same_walks_refl(start.memory, root, start.identity_top());
        }
        let mut i: u64 = 256;
        while i < 512
            invariant
                256 <= i <= 512,
                foreign.wf(),
                self.wf(),
                self.root() == root,
                root == start.root(),
                self.free_slots() == start.free_slots(),
                self.identity_top() == start.identity_top(),
                start.identity_top() <= 256,
                same_walks_below(start.memory(), self.memory(), root, start.identity_top()),
                self.free_frames() == start.free_frames(),
                self.model().levels == start.model().levels,
                self.model().free == start.model().free,
                forall|x: u64|
                    #[trigger] self.memory().read_spec(x) == if root + 2048 <= x < root + 8 * i && (
                    x - root) % 8 == 0 {
                        foreign.read_spec(entry_address(dtb, ((x - root) / 8) as u64))
                    } else {
                        start.memory().read_spec(x)
                    },
            decreases 512 - i,
        {
            let ghost before = *self;
            proof {
                reveal(IdentityPageTable::wf);
            }
            let entry: u64 = foreign.read((dtb & ADDR_MASK_4K) | (i << 3));
            let at: u64 = root + 8 * i;
            self.memory.write(at, entry);
            proof {
                let after = *self;
                before.lemma_root_word(i as int);
                Self::lemma_wf_carries(before, after, i as int);
                before.lemma_root_write_keeps_own(after.memory, i as int, entry);
                lemma_same_walks_chain(
                    start.memory,
                    before.memory,
                    after.memory,
                    root,
                    start.identity_top(),
                    start.identity_top(),
                );
                assert forall|x: u64| #[trigger] after.memory.read_spec(x) == if x == at {
                    entry
                } else {
                    before.memory.read_spec(x)
                } by {
                    crate::phys_mem::lemma_write_read(before.memory, after.memory, at, entry, x);
                }
            }
            i += 1;
        }
        Ok(())
    }

    /// Physical address of the root table, to be installed as the active
    /// page-table base.
    pub fn dtb_addr(&self) -> (addr: u64)
        ensures
            addr == self.root(),
    {
        self.memory.base_addr()
    }

    /// Start of the frame that holds the root table.
    pub fn dtb(&self) -> (frame: u64)
        requires
            self.wf(),
        ensures
            frame == self.root(),
            frame % PAGE_SIZE == 0,
            frame < PHYS_LIMIT,
    {
        proof {
            reveal(IdentityPageTable::wf);
        }
        self.memory.base_addr()
    }

    /// The memory that holds the root table and the pool, for translation.
    pub fn page_tables(&self) -> (mem: &PhysMemory)
        requires
            self.wf(),
        ensures
            *mem == self.memory(),
            mem.wf(),
    {
        proof {
            reveal(IdentityPageTable::wf);
        }
        &self.memory
    }

    /// Number of free remapping slots.
    pub fn free_slot_count(&self) -> (n: usize)
        ensures
            n == self.free_slots().len(),
    {
        self.free_virt_remaps.len()
    }

    /// Number of free frames in the pool.
    pub fn free_frame_count(&self) -> (n: usize)
        ensures
            n == self.free_frames(),
    {
        self.allocator.free_count()
    }

    /// An empty table whose root lies at `base`; the pool follows the root.
    pub fn new(base: u64) -> (table: Self)
        requires
            base % PAGE_SIZE == 0,
            base + PAGE_SIZE * (POOL_FRAMES + 1) <= PHYS_LIMIT,
        ensures
            table.wf(),
            table.root() == base,
            table.free_slots() == Seq::<usize>::empty(),
            table.free_frames() == POOL_FRAMES,
            table.identity_top() == REMAP_SLOTS,
            table.model() == TableModel::empty(base),
            forall|x: u64| table.memory().read_spec(x) == 0,
            forall|addr: u64| translate(table.memory(), table.root(), addr) is None,
    {
        proof {
            reveal(IdentityPageTable::wf);
        }
        let memory = PhysMemory::new(base, POOL_FRAMES + 1);
        let allocator: StaticFrameAllocator<POOL_FRAMES> = StaticFrameAllocator::new(
            base + PAGE_SIZE,
        );
        let mut levels: Vec<u8> = Vec::new();
        let mut f: usize = 0;
        while f < POOL_FRAMES
            invariant
                f <= POOL_FRAMES,
                levels@.len() == f,
                forall|k: int| 0 <= k < f ==> levels@[k] == 0,
            decreases POOL_FRAMES - f,
        {
            levels.push(0u8);
            f += 1;
        }
        let table = IdentityPageTable {
            memory,
            allocator,
            levels,
            free_virt_remaps: ConcurrentStaticVec::new(),
            identity_slots: REMAP_SLOTS,
        };
        proof {
            assert forall|addr: u64| translate(table.memory(), table.root(), addr) is None by {
                assert(0u64 & 0x1 == 0) by (bit_vector);
            }
        }
        table
    }
}

} // verus!
