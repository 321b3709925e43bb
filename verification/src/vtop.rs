//! Bit masks over 64-bit page-table entries and the four-level address
//! translator.

use vstd::prelude::*;
use crate::phys_mem::PhysMemory;

verus! {

/// Value of the mask that has exactly the bits `a..=b` set.
pub open spec fn bit_mask(a: u32, b: u32) -> u64 {
    (0xffff_ffff_ffff_ffffu64 >> ((63 - b) as u64)) & !(((1u64 << (a as u64)) - 1) as u64)
}

/// Whether bit `i` of `x` is set.
pub open spec fn bit_is_set(x: u64, i: u64) -> bool {
    x & (1u64 << i) != 0
}

/// A mask built by `bit_mask` has bit `i` set exactly when `a <= i <= b`.
pub proof fn lemma_bit_mask_bits(a: u32, b: u32, i: u64)
    requires
        a < 64,
        b < 64,
        i < 64,
    ensures
        bit_is_set(bit_mask(a, b), i) <==> a <= i <= b,
{
    assert(((0xffff_ffff_ffff_ffffu64 >> ((63 - b) as u64)) & !(((1u64 << (a as u64)) - 1) as u64))
        & (1u64 << i) != 0 <==> a <= i <= b) by (bit_vector)
        requires
            a < 64,
            b < 64,
            i < 64,
    ;
}

/// Builds the mask with bits `a..=b` set (empty when `a > b`).
pub fn make_bit_mask(a: u32, b: u32) -> (mask: u64)
    requires
        a < 64,
        b < 64,
    ensures
        mask == bit_mask(a, b),
        forall|i: u64| i < 64 ==> (#[trigger] bit_is_set(mask, i) <==> a <= i <= b),
{
    proof {
        assert forall|i: u64| i < 64 implies (#[trigger] bit_is_set(bit_mask(a, b), i) <==> a <= i
            <= b) by {
            lemma_bit_mask_bits(a, b, i);
        }
        assert((1u64 << (a as u64)) >= 1) by (bit_vector)
            requires
                a < 64,
        ;
    }
    (0xffff_ffff_ffff_ffffu64 >> (63 - b)) & !((1u64 << a) - 1)
}

/// Bit 0 of an entry: the entry is present.
pub const ENTRY_PRESENT: u64 = 0x1;

/// Bit 1 of an entry: writes through the entry are allowed.
pub const ENTRY_WRITABLE: u64 = 0x2;

/// Bit 7 of an entry: a directory-level entry maps a large page.
pub const ENTRY_LARGE_PAGE: u64 = 0x80;

/// Bit 10 of an entry: prototype pseudo-entry.
pub const ENTRY_PROTOTYPE: u64 = 0x400;

/// Bit 11 of an entry: transition pseudo-entry.
pub const ENTRY_TRANSITION: u64 = 0x800;

/// Bits 12..=51: the physical address of a table or of a 4 KiB page.
pub const ADDR_MASK_4K: u64 = 0x000f_ffff_ffff_f000;

/// Bits 21..=51: the physical address of a 2 MiB page.
pub const ADDR_MASK_2M: u64 = 0x000f_ffff_ffe0_0000;

/// Bits 30..=51: the physical address of a 1 GiB page.
pub const ADDR_MASK_1G: u64 = 0x000f_ffff_c000_0000;

/// Whether bit `b` of `a` is set.
pub fn get_bit(a: u64, b: u32) -> (set: bool)
    requires
        b < 64,
    ensures
        set == bit_is_set(a, b as u64),
{
    (a & (1u64 << b)) != 0
}

/// Whether the entry takes part in a walk: its present bit is set.
pub open spec fn entry_present(entry: u64) -> bool {
    entry & ENTRY_PRESENT != 0
}

/// Whether the entry has the large-page bit set.
pub open spec fn entry_large(entry: u64) -> bool {
    entry & ENTRY_LARGE_PAGE != 0
}

/// Whether the entry has the writable bit set.
pub open spec fn entry_writable(entry: u64) -> bool {
    entry & ENTRY_WRITABLE != 0
}

/// Whether the entry has the transition bit set.
pub open spec fn entry_transition(entry: u64) -> bool {
    entry & ENTRY_TRANSITION != 0
}

/// Whether the entry has the prototype bit set.
pub open spec fn entry_prototype(entry: u64) -> bool {
    entry & ENTRY_PROTOTYPE != 0
}

/// Whether the entry has the large-page bit (bit 7) set.
pub fn is_large_page(entry: u64) -> (large: bool)
    ensures
        large == entry_large(entry),
{
    assert(bit_is_set(entry, 7) == (entry & 0x80 != 0)) by (bit_vector);
    get_bit(entry, 7)
}

/// Whether the entry has the transition bit (bit 11) set.
pub fn is_transition_page(entry: u64) -> (transition: bool)
    ensures
        transition == entry_transition(entry),
{
    assert(bit_is_set(entry, 11) == (entry & 0x800 != 0)) by (bit_vector);
    get_bit(entry, 11)
}

/// Whether the entry has the writable bit (bit 1) set.
pub fn is_writeable_page(entry: u64) -> (writable: bool)
    ensures
        writable == entry_writable(entry),
{
    assert(bit_is_set(entry, 1) == (entry & 0x2 != 0)) by (bit_vector);
    get_bit(entry, 1)
}

/// Whether the entry has the prototype bit (bit 10) set.
pub fn is_prototype_page(entry: u64) -> (prototype: bool)
    ensures
        prototype == entry_prototype(entry),
{
    assert(bit_is_set(entry, 10) == (entry & 0x400 != 0)) by (bit_vector);
    get_bit(entry, 10)
}

/// Whether a walk may go through the entry. Only the present bit decides:
/// a transition or prototype pseudo-entry has it clear and ends the walk.
pub fn check_entry(entry: u64) -> (usable: bool)
    ensures
        usable == entry_present(entry),
{
    assert(bit_is_set(entry, 0) == (entry & 0x1 != 0)) by (bit_vector);
    get_bit(entry, 0)
}

/// Index into the top-level table: bits 39..=47 of the virtual address.
pub open spec fn pml4_index(addr: u64) -> u64 {
    (addr >> 39) & 0x1ff
}

/// Index into the upper directory: bits 30..=38 of the virtual address.
pub open spec fn pdpt_index(addr: u64) -> u64 {
    (addr >> 30) & 0x1ff
}

/// Index into the directory: bits 21..=29 of the virtual address.
pub open spec fn pd_index(addr: u64) -> u64 {
    (addr >> 21) & 0x1ff
}

/// Index into the page table: bits 12..=20 of the virtual address.
pub open spec fn pt_index(addr: u64) -> u64 {
    (addr >> 12) & 0x1ff
}

/// Address of entry `index` of the table that `table` names. `table` is a
/// table base or an entry that points to a table; only its bits 12..=51 count.
pub open spec fn entry_address(table: u64, index: u64) -> u64 {
    (table & ADDR_MASK_4K) | (index << 3)
}

/// Byte offset of the top-level entry for `addr` within its table.
pub fn pml4_index_bits(addr: u64) -> (offset: u64)
    ensures
        offset == pml4_index(addr) << 3,
        offset == 8 * pml4_index(addr),
        pml4_index(addr) < 512,
{
    let mask = make_bit_mask(39, 47);
    assert(bit_mask(39, 47) == 0x0000_ff80_0000_0000u64) by (bit_vector);
    assert((addr & 0x0000_ff80_0000_0000u64) >> 36 == ((addr >> 39) & 0x1ff) << 3) by (bit_vector);
    assert((((addr >> 39) & 0x1ff) << 3) == 8 * ((addr >> 39) & 0x1ff) && ((addr >> 39) & 0x1ff)
        < 512) by (bit_vector);
    (addr & mask) >> 36
}

/// Byte offset of the upper-directory entry for `addr` within its table.
pub fn pdpte_index_bits(addr: u64) -> (offset: u64)
    ensures
        offset == pdpt_index(addr) << 3,
        offset == 8 * pdpt_index(addr),
        pdpt_index(addr) < 512,
{
    let mask = make_bit_mask(30, 38);
    assert(bit_mask(30, 38) == 0x0000_007f_c000_0000u64) by (bit_vector);
    assert((addr & 0x0000_007f_c000_0000u64) >> 27 == ((addr >> 30) & 0x1ff) << 3) by (bit_vector);
    assert((((addr >> 30) & 0x1ff) << 3) == 8 * ((addr >> 30) & 0x1ff) && ((addr >> 30) & 0x1ff)
        < 512) by (bit_vector);
    (addr & mask) >> 27
}

/// Byte offset of the directory entry for `addr` within its table.
pub fn pd_index_bits(addr: u64) -> (offset: u64)
    ensures
        offset == pd_index(addr) << 3,
        offset == 8 * pd_index(addr),
        pd_index(addr) < 512,
{
    let mask = make_bit_mask(21, 29);
    assert(bit_mask(21, 29) == 0x0000_0000_3fe0_0000u64) by (bit_vector);
    assert((addr & 0x0000_0000_3fe0_0000u64) >> 18 == ((addr >> 21) & 0x1ff) << 3) by (bit_vector);
    assert((((addr >> 21) & 0x1ff) << 3) == 8 * ((addr >> 21) & 0x1ff) && ((addr >> 21) & 0x1ff)
        < 512) by (bit_vector);
    (addr & mask) >> 18
}

/// Byte offset of the page-table entry for `addr` within its table.
pub fn pt_index_bits(addr: u64) -> (offset: u64)
    ensures
        offset == pt_index(addr) << 3,
        offset == 8 * pt_index(addr),
        pt_index(addr) < 512,
{
    let mask = make_bit_mask(12, 20);
    assert(bit_mask(12, 20) == 0x0000_0000_001f_f000u64) by (bit_vector);
    assert((addr & 0x0000_0000_001f_f000u64) >> 9 == ((addr >> 12) & 0x1ff) << 3) by (bit_vector);
    assert((((addr >> 12) & 0x1ff) << 3) == 8 * ((addr >> 12) & 0x1ff) && ((addr >> 12) & 0x1ff)
        < 512) by (bit_vector);
    (addr & mask) >> 9
}

/// How a walk ended.
#[derive(Clone, Copy, Debug, PartialEq, Eq, Structural)]
pub enum Walk {
    /// An entry on the way was not present.
    NotMapped,
    /// An upper-directory entry maps a 1 GiB page; the physical address.
    Page1G(u64),
    /// A directory entry maps a 2 MiB page; the physical address.
    Page2M(u64),
    /// A page-table entry maps a 4 KiB page; the physical address.
    Page4K(u64),
}

impl Walk {
    /// The physical address that the walk found, if any.
    pub open spec fn address(self) -> Option<u64> {
        match self {
            Walk::NotMapped => None,
            Walk::Page1G(phys) => Some(phys),
            Walk::Page2M(phys) => Some(phys),
            Walk::Page4K(phys) => Some(phys),
        }
    }

    /// Number of low address bits that the page found passes through
    /// unchanged: 30, 21 or 12; 0 when nothing is mapped.
    pub open spec fn offset_bits(self) -> u64 {
        match self {
            Walk::NotMapped => 0,
            Walk::Page1G(_) => 30,
            Walk::Page2M(_) => 21,
            Walk::Page4K(_) => 12,
        }
    }
}

/// Outcome of a walk for `addr`, given the entries that the four levels hold
/// for it. A level is consulted only while the walk is still under way.
pub open spec fn resolve(addr: u64, pml4e: u64, pdpte: u64, pde: u64, pte: u64) -> Walk {
    if !entry_present(pml4e) {
        Walk::NotMapped
    } else if !entry_present(pdpte) {
        Walk::NotMapped
    } else if entry_large(pdpte) {
        Walk::Page1G((pdpte & ADDR_MASK_1G) | (addr & 0x3fff_ffff))
    } else if !entry_present(pde) {
        Walk::NotMapped
    } else if entry_large(pde) {
        Walk::Page2M((pde & ADDR_MASK_2M) | (addr & 0x1f_ffff))
    } else if !entry_present(pte) {
        Walk::NotMapped
    } else {
        Walk::Page4K((pte & ADDR_MASK_4K) | (addr & 0xfff))
    }
}

/// The top-level entry that a walk from `dtb` reads for `addr`.
pub open spec fn walk_pml4e(mem: PhysMemory, dtb: u64, addr: u64) -> u64 {
    mem.read_spec(entry_address(dtb, pml4_index(addr)))
}

/// The upper-directory entry that the walk reads for `addr`.
pub open spec fn walk_pdpte(mem: PhysMemory, dtb: u64, addr: u64) -> u64 {
    mem.read_spec(entry_address(walk_pml4e(mem, dtb, addr), pdpt_index(addr)))
}

/// The directory entry that the walk reads for `addr`.
pub open spec fn walk_pde(mem: PhysMemory, dtb: u64, addr: u64) -> u64 {
    mem.read_spec(entry_address(walk_pdpte(mem, dtb, addr), pd_index(addr)))
}

/// The page-table entry that the walk reads for `addr`.
pub open spec fn walk_pte(mem: PhysMemory, dtb: u64, addr: u64) -> u64 {
    mem.read_spec(entry_address(walk_pde(mem, dtb, addr), pt_index(addr)))
}

/// The four-level walk from the root at `dtb` for the virtual address `addr`,
/// reading entries from `mem`.
pub open spec fn walk(mem: PhysMemory, dtb: u64, addr: u64) -> Walk {
    resolve(
        addr,
        walk_pml4e(mem, dtb, addr),
        walk_pdpte(mem, dtb, addr),
        walk_pde(mem, dtb, addr),
        walk_pte(mem, dtb, addr),
    )
}

/// Whether `addr` is mapped by a 4 KiB page under the root at `dtb` and
/// every entry on the way to the page is present and writable.
pub open spec fn writable_walk(mem: PhysMemory, dtb: u64, addr: u64) -> bool {
    let pml4e = walk_pml4e(mem, dtb, addr);
    let pdpte = walk_pdpte(mem, dtb, addr);
    let pde = walk_pde(mem, dtb, addr);
    let pte = walk_pte(mem, dtb, addr);
    &&& entry_present(pml4e) && entry_writable(pml4e)
    &&& entry_present(pdpte) && entry_writable(pdpte) && !entry_large(pdpte)
    &&& entry_present(pde) && entry_writable(pde) && !entry_large(pde)
    &&& entry_present(pte) && entry_writable(pte)
}

/// The physical address that `addr` translates to under the root at `dtb`.
pub open spec fn translate(mem: PhysMemory, dtb: u64, addr: u64) -> Option<u64> {
    walk(mem, dtb, addr).address()
}

/// A walk under way: the address that is translated, the level of the entry
/// that is to be read next (4 for the top level down to 1 for the page
/// table) and the physical address of that entry.
#[derive(Clone, Copy, Debug, PartialEq, Eq, Structural)]
pub struct PageWalk {
    pub addr: u64,
    pub level: u8,
    pub next: u64,
}

/// What a walk needs next.
#[derive(Clone, Copy, Debug, PartialEq, Eq, Structural)]
pub enum WalkStep {
    /// The entry at `next` of the walk is to be read and handed to `step`.
    Read(PageWalk),
    /// The walk has ended.
    Done(Walk),
}

impl PageWalk {
    /// The walk for `addr` at its start under the root at `dtb`.
    pub open spec fn started(dtb: u64, addr: u64) -> PageWalk {
        PageWalk { addr, level: 4, next: entry_address(dtb, pml4_index(addr)) }
    }

    /// The step that follows once the entry at `next` was read as `entry`:
    /// an entry that is not present ends the walk, a large page at level 3
    /// or 2 and the page at level 1 end it with an address, and any other
    /// entry leads to the table of the next level.
    pub open spec fn stepped(self, entry: u64) -> WalkStep {
        if !entry_present(entry) {
            WalkStep::Done(Walk::NotMapped)
        } else if self.level == 4 {
            WalkStep::Read(
                PageWalk {
                    addr: self.addr,
                    level: 3,
                    next: entry_address(entry, pdpt_index(self.addr)),
                },
            )
        } else if self.level == 3 {
            if entry_large(entry) {
                WalkStep::Done(Walk::Page1G((entry & ADDR_MASK_1G) | (self.addr & 0x3fff_ffff)))
            } else {
                WalkStep::Read(
                    PageWalk {
                        addr: self.addr,
                        level: 2,
                        next: entry_address(entry, pd_index(self.addr)),
                    },
                )
            }
        } else if self.level == 2 {
            if entry_large(entry) {
                WalkStep::Done(Walk::Page2M((entry & ADDR_MASK_2M) | (self.addr & 0x1f_ffff)))
            } else {
                WalkStep::Read(
                    PageWalk {
                        addr: self.addr,
                        level: 1,
                        next: entry_address(entry, pt_index(self.addr)),
                    },
                )
            }
        } else {
            WalkStep::Done(Walk::Page4K((entry & ADDR_MASK_4K) | (self.addr & 0xfff)))
        }
    }

    /// Starts the walk for `addr` under the root at `dtb`.
    pub fn start(dtb: u64, addr: u64) -> (walk: PageWalk)
        ensures
            walk == Self::started(dtb, addr),
    {
        let table_mask = make_bit_mask(12, 51);
        assert(bit_mask(12, 51) == ADDR_MASK_4K) by (bit_vector);
        PageWalk { addr, level: 4, next: (dtb & table_mask) | pml4_index_bits(addr) }
    }

    /// Takes the entry that was read at `next` and says how the walk goes on.
    pub fn step(self, entry: u64) -> (step: WalkStep)
        ensures
            step == self.stepped(entry),
    {
        let table_mask = make_bit_mask(12, 51);
        assert(bit_mask(12, 51) == ADDR_MASK_4K) by (bit_vector);
        if !check_entry(entry) {
            return WalkStep::Done(Walk::NotMapped);
        }
        if self.level == 4 {
            WalkStep::Read(
                PageWalk {
                    addr: self.addr,
                    level: 3,
                    next: (entry & table_mask) | pdpte_index_bits(self.addr),
                },
            )
        } else if self.level == 3 {
            if is_large_page(entry) {
                let frame_mask = make_bit_mask(30, 51);
                let offset_mask = make_bit_mask(0, 29);
                assert(bit_mask(30, 51) == ADDR_MASK_1G) by (bit_vector);
                assert(bit_mask(0, 29) == 0x3fff_ffffu64) by (bit_vector);
                WalkStep::Done(Walk::Page1G((entry & frame_mask) | (self.addr & offset_mask)))
            } else {
                WalkStep::Read(
                    PageWalk {
                        addr: self.addr,
                        level: 2,
                        next: (entry & table_mask) | pd_index_bits(self.addr),
                    },
                )
            }
        } else if self.level == 2 {
            if is_large_page(entry) {
                let frame_mask = make_bit_mask(21, 51);
                let offset_mask = make_bit_mask(0, 20);
                assert(bit_mask(21, 51) == ADDR_MASK_2M) by (bit_vector);
                assert(bit_mask(0, 20) == 0x1f_ffffu64) by (bit_vector);
                WalkStep::Done(Walk::Page2M((entry & frame_mask) | (self.addr & offset_mask)))
            } else {
                WalkStep::Read(
                    PageWalk {
                        addr: self.addr,
                        level: 1,
                        next: (entry & table_mask) | pt_index_bits(self.addr),
                    },
                )
            }
        } else {
            let offset_mask = make_bit_mask(0, 11);
            assert(bit_mask(0, 11) == 0xfffu64) by (bit_vector);
            WalkStep::Done(Walk::Page4K((entry & table_mask) | (self.addr & offset_mask)))
        }
    }
}

/// Reads one page-table entry.
fn read_pt_address(mem: &PhysMemory, addr: u64) -> (entry: u64)
    requires
        mem.wf(),
    ensures
        entry == mem.read_spec(addr),
{
    mem.read(addr)
}

/// Walks the page tables in `mem` from the root at `dtb` and reports how the
/// walk for `addr` ended.
pub fn walk_tables(mem: &PhysMemory, dtb: u64, addr: u64) -> (found: Walk)
    requires
        mem.wf(),
    ensures
        found == walk(*mem, dtb, addr),
{
    let top = PageWalk::start(dtb, addr);
    let upper = match top.step(read_pt_address(mem, top.next)) {
        WalkStep::Done(found) => {
            return found;
        },
        WalkStep::Read(next) => next,
    };
    let directory = match upper.step(read_pt_address(mem, upper.next)) {
        WalkStep::Done(found) => {
            return found;
        },
        WalkStep::Read(next) => next,
    };
    let table = match directory.step(read_pt_address(mem, directory.next)) {
        WalkStep::Done(found) => {
            return found;
        },
        WalkStep::Read(next) => next,
    };
    match table.step(read_pt_address(mem, table.next)) {
        WalkStep::Done(found) => found,
        WalkStep::Read(_) => Walk::NotMapped,
    }
}

/// Translates the virtual address `addr` under the root at `dtb`, reading
/// page-table entries from `mem`. `None` when an entry on the way is absent.
pub fn virt_to_phys(mem: &PhysMemory, dtb: u64, addr: u64) -> (phys: Option<u64>)
    requires
        mem.wf(),
    ensures
        phys == translate(*mem, dtb, addr),
{
    match walk_tables(mem, dtb, addr) {
        Walk::NotMapped => None,
        Walk::Page1G(phys) => Some(phys),
        Walk::Page2M(phys) => Some(phys),
        Walk::Page4K(phys) => Some(phys),
    }
}

/// A translation keeps the offset within the page: the low 12, 21 or 30 bits
/// of the physical address are those of the virtual address, by the size of
/// the page that the walk found.
pub proof fn lemma_translation_keeps_offset(mem: PhysMemory, dtb: u64, addr: u64)
    ensures
        match walk(mem, dtb, addr) {
            Walk::NotMapped => translate(mem, dtb, addr) is None,
            Walk::Page1G(phys) => translate(mem, dtb, addr) == Some(phys) && phys & 0x3fff_ffff
                == addr & 0x3fff_ffff,
            Walk::Page2M(phys) => translate(mem, dtb, addr) == Some(phys) && phys & 0x1f_ffff
                == addr & 0x1f_ffff,
            Walk::Page4K(phys) => translate(mem, dtb, addr) == Some(phys) && phys & 0xfff == addr
                & 0xfff,
        },
{
    let pdpte = walk_pdpte(mem, dtb, addr);
    let pde = walk_pde(mem, dtb, addr);
    let pte = walk_pte(mem, dtb, addr);
    assert(((pdpte & 0x000f_ffff_c000_0000u64) | (addr & 0x3fff_ffff)) & 0x3fff_ffff == addr
        & 0x3fff_ffff) by (bit_vector);
    assert(((pde & 0x000f_ffff_ffe0_0000u64) | (addr & 0x1f_ffff)) & 0x1f_ffff == addr & 0x1f_ffff)
        by (bit_vector);
    assert(((pte & 0x000f_ffff_ffff_f000u64) | (addr & 0xfff)) & 0xfff == addr & 0xfff)
        by (bit_vector);
}

/// Rounds `val` down to the start of its 4 KiB page.
pub fn as_page_aligned(val: u64) -> (aligned: u64)
    ensures
        aligned % 0x1000 == 0,
        aligned <= val < aligned + 0x1000,
        aligned == val - val % 0x1000,
{
    val - val % 0x1000
}

} // verus!
