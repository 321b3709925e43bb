//! When identity mapping succeeds.
//!
//! A table that was built by mapping pages alone holds every table under one
//! entry only, so a page that was not mapped yet finds the entry of its page
//! table empty. From a table without entries, regions that are page aligned,
//! lie in the lower half and do not overlap are therefore mapped without an
//! error as long as frames are left. A region needs three tables for its
//! first page and one more at each boundary of a page table, of a directory
//! and of an upper directory up to its last page.

use vstd::prelude::*;
use crate::frame_alloc::all_below;
use crate::identity_page_table::{
    lemma_flag_bits,
    lemma_table_entry_bits,
    region_error,
    MapToError,
    TableModel,
    CANONICAL_LIMIT,
    POOL_FRAMES,
    TABLE_FLAGS,
};
use crate::mem_maps::MemoryRegion;
use crate::phys_mem::{PAGE_SIZE, PHYS_LIMIT};
use crate::vtop::{
    entry_large,
    entry_present,
    pd_index,
    pdpt_index,
    pml4_index,
    pt_index,
    ADDR_MASK_4K,
};

verus! {

/// Word `index` of the table in pool frame `frame`; of the root for frame -1.
pub open spec fn word_at(m: TableModel, frame: int, index: int) -> u64 {
    m.words[(frame + 1) * 512 + index]
}

/// Address of word `index` of the table in pool frame `frame`; of the root
/// for frame -1.
pub open spec fn slot_addr(m: TableModel, frame: int, index: int) -> int {
    m.root + (frame + 1) * 4096 + 8 * index
}

/// Index of the pool frame that starts at `addr`.
pub open spec fn frame_of(m: TableModel, addr: u64) -> int {
    (addr - (m.root + PAGE_SIZE)) / (PAGE_SIZE as int)
}

/// Level of the table in pool frame `frame`; 4 for the root, frame -1.
pub open spec fn level_at(m: TableModel, frame: int) -> int {
    if frame == -1 {
        4
    } else {
        m.levels[frame] as int
    }
}

/// The virtual addresses that the table in pool frame `frame` governs,
/// divided by the span of the table; 0 for the root, frame -1.
pub open spec fn key_at(keys: Seq<int>, frame: int) -> int {
    if frame == -1 {
        0
    } else {
        keys[frame]
    }
}

/// Whether the table has its size and lies page aligned below the
/// physical limit.
pub open spec fn shaped(m: TableModel) -> bool {
    &&& m.root % PAGE_SIZE == 0
    &&& m.root + PAGE_SIZE * (POOL_FRAMES + 1) <= PHYS_LIMIT
    &&& m.words.len() == 512 * (POOL_FRAMES + 1)
    &&& m.levels.len() == POOL_FRAMES
}

/// Whether the table was built by mapping pages alone: free frames hold
/// zeros, every entry of the root and of the tables above the page tables is
/// empty or points to a table one level down that governs the addresses of
/// that entry, and the entries of the page tables that are not empty are
/// those of the pages in `pages`, which holds addresses divided by the page
/// size. `keys` says for each frame which addresses its table governs.
#[verifier::opaque]
pub open spec fn labelled(m: TableModel, keys: Seq<int>, pages: Set<int>) -> bool {
    &&& m.root % PAGE_SIZE == 0
    &&& m.root + PAGE_SIZE * (POOL_FRAMES + 1) <= PHYS_LIMIT
    &&& m.words.len() == 512 * (POOL_FRAMES + 1)
    &&& m.levels.len() == POOL_FRAMES
    &&& keys.len() == POOL_FRAMES
    &&& m.free.no_duplicates()
    &&& all_below(m.free, POOL_FRAMES as int)
    &&& forall|k: int| 0 <= k < m.free.len() ==> m.levels[#[trigger] m.free[k] as int] == 0
    &&& forall|f: int| 0 <= f < POOL_FRAMES ==> #[trigger] m.levels[f] <= 3
    &&& forall|f: int, i: int|
        0 <= f < POOL_FRAMES && 0 <= i < 512 && m.levels[f] == 0 ==> #[trigger] word_at(m, f, i)
            == 0
    &&& forall|f: int, i: int|
        -1 <= f < POOL_FRAMES && 0 <= i < 512 && level_at(m, f) >= 2 && #[trigger] word_at(m, f, i)
            != 0 ==> {
            let entry = word_at(m, f, i);
            &&& entry_present(entry)
            &&& !entry_large(entry)
            &&& m.is_table(entry & ADDR_MASK_4K, (level_at(m, f) - 1) as u8)
            &&& keys[frame_of(m, entry & ADDR_MASK_4K)] == key_at(keys, f) * 512 + i
        }
    &&& forall|f: int, i: int|
        0 <= f < POOL_FRAMES && 0 <= i < 512 && m.levels[f] == 1 && #[trigger] word_at(m, f, i) != 0
            ==> pages.contains(keys[f] * 512 + i)
}

/// The table without entries was built by mapping pages alone.
pub proof fn lemma_empty_is_labelled(root: u64)
    requires
        root % PAGE_SIZE == 0,
        root + PAGE_SIZE * (POOL_FRAMES + 1) <= PHYS_LIMIT,
    ensures
        labelled(TableModel::empty(root), Seq::new(POOL_FRAMES as nat, |i: int| 0int), Set::empty()),
        TableModel::empty(root).free.len() == POOL_FRAMES,
{
    reveal(labelled);
    let m = TableModel::empty(root);
    assert forall|i: int, j: int| 0 <= i < m.free.len() && 0 <= j < m.free.len() && i
        != j implies m.free[i] != m.free[j] by {}
}

/// The size and the place of a table that was built by mapping pages alone.
proof fn lemma_shape(m: TableModel, keys: Seq<int>, pages: Set<int>)
    requires
        labelled(m, keys, pages),
    ensures
        shaped(m),
{
    reveal(labelled);
}

/// In a table that was built by mapping pages alone, an entry above the page
/// tables that is not empty points to a table one level down.
proof fn lemma_entry_points(m: TableModel, keys: Seq<int>, pages: Set<int>, frame: int, index: int)
    requires
        labelled(m, keys, pages),
        -1 <= frame < POOL_FRAMES,
        0 <= index < 512,
        level_at(m, frame) >= 2,
        word_at(m, frame, index) != 0,
    ensures
        m.is_table(word_at(m, frame, index) & ADDR_MASK_4K, (level_at(m, frame) - 1) as u8),
{
    reveal(labelled);
}

/// In a table that was built by mapping pages alone, the entry of a page
/// that is not mapped is empty, and the table stays as it was built when
/// the entry is made to point to a frame, now with this page.
proof fn lemma_page_entry(
    m: TableModel,
    keys: Seq<int>,
    pages: Set<int>,
    frame: int,
    index: int,
    phys: u64,
)
    requires
        labelled(m, keys, pages),
        0 <= frame < POOL_FRAMES,
        0 <= index < 512,
        m.levels[frame] == 1,
        !pages.contains(keys[frame] * 512 + index),
    ensures
        word_at(m, frame, index) == 0,
        labelled(
            m.written(slot_addr(m, frame, index) as u64, phys | TABLE_FLAGS),
            keys,
            pages.insert(keys[frame] * 512 + index),
        ),
        forall|f: int, i: int|
            -1 <= f < POOL_FRAMES && 0 <= i < 512 && !(f == frame && i == index)
                ==> #[trigger] word_at(
                m.written(slot_addr(m, frame, index) as u64, phys | TABLE_FLAGS),
                f,
                i,
            ) == word_at(m, f, i),
{
    reveal(labelled);
    lemma_slot_read(m, frame, index);
    let after = m.written(slot_addr(m, frame, index) as u64, phys | TABLE_FLAGS);
    let more = pages.insert(keys[frame] * 512 + index);
    assert forall|f: int, i: int| -1 <= f < POOL_FRAMES && 0 <= i < 512 implies #[trigger] word_at(
        after,
        f,
        i,
    ) == if f == frame && i == index {
        (phys | TABLE_FLAGS) as u64
    } else {
        word_at(m, f, i)
    } by {}
    assert forall|f: int, i: int|
        0 <= f < POOL_FRAMES && 0 <= i < 512 && after.levels[f] == 1 && #[trigger] word_at(
            after,
            f,
            i,
        ) != 0 implies more.contains(keys[f] * 512 + i) by {
        if !(f == frame && i == index) {
            assert(word_at(m, f, i) != 0);
        }
    }
}

/// Word `index` of a table is read at its address.
proof fn lemma_slot_read(m: TableModel, frame: int, index: int)
    requires
        shaped(m),
        -1 <= frame < POOL_FRAMES,
        0 <= index < 512,
    ensures
        m.contains(slot_addr(m, frame, index) as u64),
        m.word_index(slot_addr(m, frame, index) as u64) == (frame + 1) * 512 + index,
        m.read(slot_addr(m, frame, index) as u64) == word_at(m, frame, index),
{
}

/// A pool frame that holds a table starts at the address of its index.
proof fn lemma_table_frame(m: TableModel, addr: u64, level: u8)
    requires
        m.is_table(addr, level),
    ensures
        0 <= frame_of(m, addr) < POOL_FRAMES,
        addr == m.frame_addr(frame_of(m, addr)),
        m.levels[frame_of(m, addr)] == level,
{
}

/// The indices of an address of the lower half spell its prefixes.
proof fn lemma_prefixes(virt: u64)
    requires
        virt < 0x8000_0000_0000,
    ensures
        pml4_index(virt) < 512,
        pdpt_index(virt) < 512,
        pd_index(virt) < 512,
        pt_index(virt) < 512,
        pml4_index(virt) == virt / 0x80_0000_0000,
        virt / 0x4000_0000 == (virt / 0x80_0000_0000) * 512 + pdpt_index(virt),
        virt / 0x20_0000 == (virt / 0x4000_0000) * 512 + pd_index(virt),
        virt / 0x1000 == (virt / 0x20_0000) * 512 + pt_index(virt),
{
    assert((virt >> 39) & 0x1ff < 512 && (virt >> 30) & 0x1ff < 512 && (virt >> 21) & 0x1ff < 512
        && (virt >> 12) & 0x1ff < 512 && (virt >> 39) & 0x1ff == virt / 0x80_0000_0000 && virt
        / 0x4000_0000 == (virt / 0x80_0000_0000) * 512 + ((virt >> 30) & 0x1ff) && virt / 0x20_0000
        == (virt / 0x4000_0000) * 512 + ((virt >> 21) & 0x1ff) && virt / 0x1000 == (virt
        / 0x20_0000) * 512 + ((virt >> 12) & 0x1ff)) by (bit_vector)
        requires
            virt < 0x8000_0000_0000u64,
    ;
}

/// In a table that was built by mapping pages alone, following an entry to
/// the table one level down succeeds while a frame is free, and the table
/// stays as it was built; the table that is reached governs the addresses of
/// the entry. Returns what the frames govern afterwards.
proof fn lemma_next_table(
    m: TableModel,
    keys: Seq<int>,
    pages: Set<int>,
    frame: int,
    index: int,
    child_level: u8,
) -> (after_keys: Seq<int>)
    requires
        labelled(m, keys, pages),
        -1 <= frame < POOL_FRAMES,
        0 <= index < 512,
        1 <= child_level <= 3,
        level_at(m, frame) == child_level + 1,
        word_at(m, frame, index) == 0 ==> m.free.len() >= 1,
    ensures
        ({
            let (after, next) = m.next_table(slot_addr(m, frame, index) as u64, child_level);
            &&& next is Ok
            &&& labelled(after, after_keys, pages)
            &&& shaped(after)
            &&& after.root == m.root
            &&& after.is_table(next->Ok_0, child_level)
            &&& after_keys[frame_of(after, next->Ok_0)] == key_at(keys, frame) * 512 + index
            &&& word_at(after, frame, index) != 0
            &&& word_at(after, frame, index) & ADDR_MASK_4K == next->Ok_0
            &&& word_at(m, frame, index) == 0 ==> {
                &&& after.free.len() == m.free.len() - 1
                &&& m.levels[frame_of(after, next->Ok_0)] == 0
                &&& forall|i: int|
                    0 <= i < 512 ==> #[trigger] word_at(after, frame_of(after, next->Ok_0), i) == 0
            }
            &&& word_at(m, frame, index) != 0 ==> {
                &&& after.free.len() == m.free.len()
                &&& next->Ok_0 == word_at(m, frame, index) & ADDR_MASK_4K
            }
            &&& forall|f: int, i: int|
                -1 <= f < POOL_FRAMES && 0 <= i < 512 && !(f == frame && i == index)
                    ==> #[trigger] word_at(after, f, i) == word_at(m, f, i)
            &&& forall|f: int|
                0 <= f < POOL_FRAMES && m.levels[f] != 0 ==> #[trigger] after.levels[f]
                    == m.levels[f] && after_keys[f] == keys[f]
        }),
{
    reveal(labelled);
    let at = slot_addr(m, frame, index) as u64;
    lemma_slot_read(m, frame, index);
    let entry = m.read(at);
    let (after, next) = m.next_table(at, child_level);
    if entry == 0 {
        let taken = m.free.last() as int;
        let child = m.frame_addr(taken) as u64;
        assert(m.free[m.free.len() - 1] < POOL_FRAMES);
        assert(m.levels[m.free[m.free.len() - 1] as int] == 0);
        lemma_table_entry_bits(child);
        let after_keys = keys.update(taken, key_at(keys, frame) * 512 + index);
        assert(frame_of(after, child) == taken);
        assert(frame != taken);
        assert forall|f: int, i: int| -1 <= f < POOL_FRAMES && 0 <= i < 512 implies #[trigger] word_at(
            after,
            f,
            i,
        ) == if f == frame && i == index {
            (child | TABLE_FLAGS) as u64
        } else {
            word_at(m, f, i)
        } by {}
        assert forall|k: int| 0 <= k < after.free.len() implies after.levels[#[trigger] after.free[k] as int]
            == 0 by {
            assert(after.free[k] == m.free[k]);
        }
        assert forall|f: int, i: int|
            -1 <= f < POOL_FRAMES && 0 <= i < 512 && level_at(after, f) >= 2 && #[trigger] word_at(
                after,
                f,
                i,
            ) != 0 implies ({
            let e = word_at(after, f, i);
            &&& entry_present(e)
            &&& !entry_large(e)
            &&& after.is_table(e & ADDR_MASK_4K, (level_at(after, f) - 1) as u8)
            &&& after_keys[frame_of(after, e & ADDR_MASK_4K)] == key_at(after_keys, f) * 512 + i
        }) by {
            if f == frame && i == index {
            } else if f == taken {
                assert(word_at(m, f, i) == 0);
            } else {
                let e = word_at(m, f, i);
                assert(m.is_table(e & ADDR_MASK_4K, (level_at(m, f) - 1) as u8));
                assert(frame_of(m, e & ADDR_MASK_4K) != taken);
            }
        }
        assert forall|f: int, i: int|
            0 <= f < POOL_FRAMES && 0 <= i < 512 && after.levels[f] == 1 && #[trigger] word_at(
                after,
                f,
                i,
            ) != 0 implies pages.contains(after_keys[f] * 512 + i) by {
            if f == taken {
                assert(word_at(m, f, i) == 0);
            } else {
                assert(word_at(m, f, i) != 0);
            }
        }
        assert(labelled(after, after_keys, pages));
        after_keys
    } else {
        lemma_flag_bits(entry);
        assert(word_at(m, frame, index) == entry);
        let target = (entry & ADDR_MASK_4K) as u64;
        assert(m.is_table(target, child_level));
        assert forall|f: int, i: int| -1 <= f < POOL_FRAMES && 0 <= i < 512 implies #[trigger] word_at(
            after,
            f,
            i,
        ) == if f == frame && i == index {
            (entry | TABLE_FLAGS) as u64
        } else {
            word_at(m, f, i)
        } by {}
        assert forall|f: int, i: int|
            0 <= f < POOL_FRAMES && 0 <= i < 512 && after.levels[f] == 1 && #[trigger] word_at(
                after,
                f,
                i,
            ) != 0 implies pages.contains(keys[f] * 512 + i) by {
            assert(word_at(m, f, i) != 0);
        }
        assert(labelled(after, keys, pages));
        keys
    }
}

/// Number of tables on the way to the page of `virt` that exist, from the
/// root down: 0 when the entry of the root is empty, up to 3 when the page
/// table exists.
pub open spec fn reach(m: TableModel, virt: u64) -> int {
    let pml4e = m.read((m.root + 8 * pml4_index(virt)) as u64);
    if pml4e == 0 {
        0
    } else {
        let pdpte = m.read(((pml4e & ADDR_MASK_4K) + 8 * pdpt_index(virt)) as u64);
        if pdpte == 0 {
            1
        } else {
            let pde = m.read(((pdpte & ADDR_MASK_4K) + 8 * pd_index(virt)) as u64);
            if pde == 0 {
                2
            } else {
                3
            }
        }
    }
}

/// Number of tables that the ways to the pages of two addresses share: 3
/// when they lie in the same page table, down to 0 when they lie under
/// different entries of the root.
pub open spec fn shared(a: u64, b: u64) -> int {
    if a / 0x20_0000 == b / 0x20_0000 {
        3
    } else if a / 0x4000_0000 == b / 0x4000_0000 {
        2
    } else if a / 0x80_0000_0000 == b / 0x80_0000_0000 {
        1
    } else {
        0
    }
}

/// Addresses that share tables select the same entries in them.
proof fn lemma_shared_indices(a: u64, b: u64)
    requires
        a < CANONICAL_LIMIT,
        b < CANONICAL_LIMIT,
    ensures
        shared(a, b) >= 1 ==> pml4_index(a) == pml4_index(b),
        shared(a, b) >= 2 ==> pdpt_index(a) == pdpt_index(b),
        shared(a, b) >= 3 ==> pd_index(a) == pd_index(b),
{
    lemma_prefixes(a);
    lemma_prefixes(b);
}

/// The tables on the way to the page of `virt`, read off the entries.
proof fn lemma_reach(m: TableModel, keys: Seq<int>, pages: Set<int>, virt: u64)
    requires
        labelled(m, keys, pages),
        virt < CANONICAL_LIMIT,
    ensures
        ({
            let pml4e = word_at(m, -1, pml4_index(virt) as int);
            let upper = frame_of(m, pml4e & ADDR_MASK_4K);
            let pdpte = word_at(m, upper, pdpt_index(virt) as int);
            let directory = frame_of(m, pdpte & ADDR_MASK_4K);
            let pde = word_at(m, directory, pd_index(virt) as int);
            &&& pml4e == 0 ==> reach(m, virt) == 0
            &&& pml4e != 0 ==> m.is_table(pml4e & ADDR_MASK_4K, 3)
            &&& pml4e != 0 && pdpte == 0 ==> reach(m, virt) == 1
            &&& pml4e != 0 && pdpte != 0 ==> m.is_table(pdpte & ADDR_MASK_4K, 2)
            &&& pml4e != 0 && pdpte != 0 && pde == 0 ==> reach(m, virt) == 2
            &&& pml4e != 0 && pdpte != 0 && pde != 0 ==> reach(m, virt) == 3
        }),
{
    lemma_shape(m, keys, pages);
    lemma_prefixes(virt);
    let i4 = pml4_index(virt) as int;
    let i3 = pdpt_index(virt) as int;
    let i2 = pd_index(virt) as int;
    lemma_slot_read(m, -1, i4);
    let pml4e = word_at(m, -1, i4);
    if pml4e != 0 {
        lemma_entry_points(m, keys, pages, -1, i4);
        let t = (pml4e & ADDR_MASK_4K) as u64;
        lemma_table_frame(m, t, 3);
        let upper = frame_of(m, t);
        lemma_slot_read(m, upper, i3);
        assert(slot_addr(m, upper, i3) == t + 8 * pdpt_index(virt));
        let pdpte = word_at(m, upper, i3);
        if pdpte != 0 {
            lemma_entry_points(m, keys, pages, upper, i3);
            let u = (pdpte & ADDR_MASK_4K) as u64;
            lemma_table_frame(m, u, 2);
            let directory = frame_of(m, u);
            lemma_slot_read(m, directory, i2);
            assert(slot_addr(m, directory, i2) == u + 8 * pd_index(virt));
        }
    }
}

/// When the three tables on the way to the page of `virt` exist, an address
/// finds as many tables on its way as it shares with `virt`.
proof fn lemma_reach_shared(m: TableModel, virt: u64, other: u64, upper: int, directory: int)
    requires
        shaped(m),
        virt < CANONICAL_LIMIT,
        other < CANONICAL_LIMIT,
        0 <= upper < POOL_FRAMES,
        0 <= directory < POOL_FRAMES,
        word_at(m, -1, pml4_index(virt) as int) != 0,
        word_at(m, -1, pml4_index(virt) as int) & ADDR_MASK_4K == m.frame_addr(upper),
        word_at(m, upper, pdpt_index(virt) as int) != 0,
        word_at(m, upper, pdpt_index(virt) as int) & ADDR_MASK_4K == m.frame_addr(directory),
        word_at(m, directory, pd_index(virt) as int) != 0,
    ensures
        reach(m, other) >= shared(virt, other),
{
    lemma_prefixes(virt);
    lemma_prefixes(other);
    lemma_shared_indices(virt, other);
    lemma_slot_read(m, -1, pml4_index(virt) as int);
    lemma_slot_read(m, upper, pdpt_index(virt) as int);
    lemma_slot_read(m, directory, pd_index(virt) as int);
    assert(slot_addr(m, upper, pdpt_index(virt) as int) == m.frame_addr(upper) + 8 * pdpt_index(
        virt,
    ));
    assert(slot_addr(m, directory, pd_index(virt) as int) == m.frame_addr(directory) + 8
        * pd_index(virt));
}

/// In a table that was built by mapping pages alone, a page of the lower
/// half that was not mapped yet is mapped without an error when a frame is
/// free for each table on its way that does not exist yet. The table stays
/// as it was built, now with this page, and the tables on the way exist.
/// Returns what the frames govern afterwards.
#[verifier::rlimit(40)]
proof fn lemma_map_page(m: TableModel, keys: Seq<int>, pages: Set<int>, virt: u64, phys: u64) -> (after_keys:
    Seq<int>)
    requires
        labelled(m, keys, pages),
        virt % PAGE_SIZE == 0,
        virt < CANONICAL_LIMIT,
        !pages.contains(page_of(virt)),
        m.free.len() >= 3 - reach(m, virt),
    ensures
        m.map_page(virt, phys).1 is Ok,
        labelled(m.map_page(virt, phys).0, after_keys, pages.insert(page_of(virt))),
        m.map_page(virt, phys).0.root == m.root,
        m.map_page(virt, phys).0.free.len() == m.free.len() - (3 - reach(m, virt)),
        forall|other: u64|
            other < CANONICAL_LIMIT ==> #[trigger] reach(m.map_page(virt, phys).0, other) >= shared(
                virt,
                other,
            ),
{
    lemma_prefixes(virt);
    lemma_shape(m, keys, pages);
    lemma_reach(m, keys, pages, virt);
    let i4 = pml4_index(virt) as int;
    let i3 = pdpt_index(virt) as int;
    let i2 = pd_index(virt) as int;
    let i1 = pt_index(virt) as int;
    let keys1 = lemma_next_table(m, keys, pages, -1, i4, 3);
    let (first, upper) = m.next_table((m.root + 8 * pml4_index(virt)) as u64, 3);
    let pdpt = upper->Ok_0;
    lemma_table_frame(first, pdpt, 3);
    let f3 = frame_of(first, pdpt);
    assert(slot_addr(first, f3, i3) == pdpt + 8 * pdpt_index(virt));
    let keys2 = lemma_next_table(first, keys1, pages, f3, i3, 2);
    let (second, directory) = first.next_table((pdpt + 8 * pdpt_index(virt)) as u64, 2);
    let pd = directory->Ok_0;
    lemma_table_frame(second, pd, 2);
    let f2 = frame_of(second, pd);
    assert(slot_addr(second, f2, i2) == pd + 8 * pd_index(virt));
    let keys3 = lemma_next_table(second, keys2, pages, f2, i2, 1);
    let (third, table) = second.next_table((pd + 8 * pd_index(virt)) as u64, 1);
    let pt = table->Ok_0;
    lemma_table_frame(third, pt, 1);
    let f1 = frame_of(third, pt);
    assert(slot_addr(third, f1, i1) == pt + 8 * pt_index(virt));
    assert(keys3[f1] * 512 + i1 == page_of(virt));
    lemma_page_entry(third, keys3, pages, f1, i1, phys);
    lemma_slot_read(third, f1, i1);
    let at = (pt + 8 * pt_index(virt)) as u64;
    let after = third.written(at, phys | TABLE_FLAGS);
    assert(m.map_page(virt, phys) == (after, Ok::<(), MapToError>(())));
    assert(third.levels[f3] == 3 && third.levels[f2] == 2 && third.levels[f1] == 1);
    assert(word_at(after, -1, i4) == word_at(first, -1, i4));
    assert(word_at(after, f3, i3) == word_at(second, f3, i3));
    assert(word_at(after, f2, i2) == word_at(third, f2, i2));
    assert forall|other: u64| other < CANONICAL_LIMIT implies #[trigger] reach(after, other)
        >= shared(virt, other) by {
        lemma_reach_shared(after, virt, other, f3, f2);
    }
    keys3
}

/// The address divided by the page size: the number of its page.
pub open spec fn page_of(addr: u64) -> int {
    addr as int / 4096
}

/// The pages of the `count` pages from `start` on, as addresses divided by
/// the page size, together with `pages`.
pub open spec fn with_pages(pages: Set<int>, start: u64, count: nat) -> Set<int> {
    Set::new(
        |n: int|
            pages.contains(n) || page_of(start) <= n < page_of(start) + count,
    )
}

/// Number of tables that mapping the pages from `first` to `last` begins
/// after the three of the first page: one for each boundary of a page table,
/// of a directory and of an upper directory that lies between the two.
pub open spec fn boundaries(first: u64, last: u64) -> int {
    (last / 0x20_0000 - first / 0x20_0000) + (last / 0x4000_0000 - first / 0x4000_0000) + (last
        / 0x80_0000_0000 - first / 0x80_0000_0000)
}

/// The tables that the next page does not share with a page are as many as
/// the boundaries between the two.
proof fn lemma_next_page_boundaries(page: u64)
    requires
        page % PAGE_SIZE == 0,
        page + PAGE_SIZE < CANONICAL_LIMIT,
    ensures
        boundaries(page, (page + PAGE_SIZE) as u64) == 3 - shared(page, (page + PAGE_SIZE) as u64),
{
    let next = (page + PAGE_SIZE) as u64;
    assert((next / 0x20_0000 == page / 0x20_0000 || next / 0x20_0000 == page / 0x20_0000 + 1) && (
    next / 0x4000_0000 == page / 0x4000_0000 || next / 0x4000_0000 == page / 0x4000_0000 + 1) && (
    next / 0x80_0000_0000 == page / 0x80_0000_0000 || next / 0x80_0000_0000 == page
        / 0x80_0000_0000 + 1) && (next / 0x4000_0000 != page / 0x4000_0000 ==> next / 0x20_0000
        != page / 0x20_0000) && (next / 0x80_0000_0000 != page / 0x80_0000_0000 ==> next
        / 0x4000_0000 != page / 0x4000_0000)) by (bit_vector)
        requires
            page % 0x1000 == 0,
            page < 0x7fff_ffff_f000u64,
            next == page + 0x1000,
    ;
}

/// Address of the last of `count` pages from `start` on.
pub open spec fn last_page(start: u64, count: nat) -> u64 {
    (start + (count - 1) * PAGE_SIZE) as u64
}

/// In a table that was built by mapping pages alone, `count` pages in a row
/// in the lower half, none of them mapped yet, are identity mapped without
/// an error when frames are free for the tables that the first page lacks
/// and for one table at each boundary up to the last page. Returns what the
/// frames govern afterwards.
proof fn lemma_map_pages(m: TableModel, keys: Seq<int>, pages: Set<int>, start: u64, count: nat) -> (after_keys:
    Seq<int>)
    requires
        labelled(m, keys, pages),
        count > 0 ==> start % PAGE_SIZE == 0 && start + count * PAGE_SIZE <= CANONICAL_LIMIT,
        forall|n: int| page_of(start) <= n < page_of(start) + count ==> !pages.contains(n),
        count > 0 ==> m.free.len() >= 3 - reach(m, start) + boundaries(
            start,
            last_page(start, count),
        ),
    ensures
        m.map_pages(start, start, count).1 is Ok,
        labelled(m.map_pages(start, start, count).0, after_keys, with_pages(pages, start, count)),
        m.map_pages(start, start, count).0.root == m.root,
        count == 0 ==> m.map_pages(start, start, count).0.free.len() == m.free.len(),
        count > 0 ==> m.map_pages(start, start, count).0.free.len() >= m.free.len() - (3 - reach(
            m,
            start,
        ) + boundaries(start, last_page(start, count))),
    decreases count,
{
    if count == 0 {
        assert(with_pages(pages, start, count) =~= pages);
        keys
    } else {
        let keys1 = lemma_map_page(m, keys, pages, start, start);
        let (next, mapped) = m.map_page(start, start);
        let more = pages.insert(page_of(start));
        let then = (start + PAGE_SIZE) as u64;
        let rest = (count - 1) as nat;
        assert(page_of(then) == page_of(start) + 1);
        if rest > 0 {
            lemma_next_page_boundaries(start);
            assert(reach(next, then) >= shared(start, then));
            assert(last_page(then, rest) == last_page(start, count));
            assert(boundaries(start, last_page(start, count)) == boundaries(start, then)
                + boundaries(then, last_page(then, rest)));
        } else {
            assert(last_page(start, count) == start);
        }
        let keys2 = lemma_map_pages(next, keys1, more, then, rest);
        assert(with_pages(more, then, rest) =~= with_pages(pages, start, count));
        keys2
    }
}

/// Number of frames that are enough for the tables of a region: three for
/// its first page and one for each boundary of a page table, of a directory
/// and of an upper directory up to its last page.
pub open spec fn region_frames(region: MemoryRegion) -> int {
    if region.page_count == 0 {
        0
    } else {
        3 + boundaries(
            region.physical_start,
            last_page(region.physical_start, region.page_count as nat),
        )
    }
}

/// Number of frames that are enough for the tables of the regions.
pub open spec fn frames_for(regions: Seq<MemoryRegion>) -> int
    decreases regions.len(),
{
    if regions.len() == 0 {
        0
    } else {
        region_frames(regions.first()) + frames_for(regions.drop_first())
    }
}

/// Whether the two regions share no page.
pub open spec fn apart(a: MemoryRegion, b: MemoryRegion) -> bool {
    ||| a.page_count == 0
    ||| b.page_count == 0
    ||| a.physical_start + a.page_count * PAGE_SIZE <= b.physical_start
    ||| b.physical_start + b.page_count * PAGE_SIZE <= a.physical_start
}

/// Whether the regions can be identity mapped whatever their order: each is
/// page aligned and ends within the lower half, and no two share a page.
pub open spec fn mappable(regions: Seq<MemoryRegion>) -> bool {
    &&& forall|i: int| 0 <= i < regions.len() ==> region_error(#[trigger] regions[i]) is None
    &&& forall|i: int, j: int|
        0 <= i < j < regions.len() ==> apart(#[trigger] regions[i], #[trigger] regions[j])
}

/// Whether the region holds the page with number `n`.
pub open spec fn holds_page(region: MemoryRegion, n: int) -> bool {
    page_of(region.physical_start) <= n < page_of(region.physical_start) + region.page_count
}

/// Whether no page of the region is in `pages`.
pub open spec fn unmapped(region: MemoryRegion, pages: Set<int>) -> bool {
    forall|n: int| #[trigger] holds_page(region, n) ==> !pages.contains(n)
}

/// A region needs no negative number of frames.
proof fn lemma_region_frames_positive(region: MemoryRegion)
    requires
        region_error(region) is None,
    ensures
        region_frames(region) >= 0,
        region.page_count > 0 ==> boundaries(
            region.physical_start,
            last_page(region.physical_start, region.page_count as nat),
        ) >= 0,
{
    if region.page_count > 0 {
        let first = region.physical_start;
        let last = last_page(first, region.page_count as nat);
        assert(first <= last);
        assert(first / 0x20_0000 <= last / 0x20_0000);
        assert(first / 0x4000_0000 <= last / 0x4000_0000);
        assert(first / 0x80_0000_0000 <= last / 0x80_0000_0000);
    }
}

/// Regions need no negative number of frames.
proof fn lemma_frames_for_positive(regions: Seq<MemoryRegion>)
    requires
        forall|i: int| 0 <= i < regions.len() ==> region_error(#[trigger] regions[i]) is None,
    ensures
        frames_for(regions) >= 0,
    decreases regions.len(),
{
    if regions.len() > 0 {
        let rest = regions.drop_first();
        assert forall|i: int| 0 <= i < rest.len() implies region_error(#[trigger] rest[i]) is None by {
            assert(rest[i] == regions[i + 1]);
        }
        assert(region_error(regions[0]) is None);
        lemma_region_frames_positive(regions.first());
        lemma_frames_for_positive(rest);
    }
}

/// Two page-aligned regions that are apart hold different pages.
proof fn lemma_apart_pages(a: MemoryRegion, b: MemoryRegion)
    requires
        apart(a, b),
        region_error(a) is None,
        region_error(b) is None,
    ensures
        forall|n: int| #[trigger] holds_page(a, n) ==> !holds_page(b, n),
{
}

/// In a table that was built by mapping pages alone, regions that can be
/// identity mapped and hold no page that is mapped already are mapped
/// without an error when as many frames are free as are enough for the
/// tables of each of them.
proof fn lemma_map_regions(m: TableModel, keys: Seq<int>, pages: Set<int>, regions: Seq<MemoryRegion>)
    requires
        labelled(m, keys, pages),
        mappable(regions),
        forall|i: int| 0 <= i < regions.len() ==> unmapped(#[trigger] regions[i], pages),
        m.free.len() >= frames_for(regions),
    ensures
        m.map_regions(regions).1 is Ok,
    decreases regions.len(),
{
    if regions.len() > 0 {
        let region = regions.first();
        let rest = regions.drop_first();
        assert(region_error(regions[0]) is None);
        assert(unmapped(regions[0], pages));
        let start = region.physical_start;
        let count = region.page_count as nat;
        assert forall|i: int| 0 <= i < rest.len() implies region_error(#[trigger] rest[i]) is None by {
            assert(rest[i] == regions[i + 1]);
        }
        lemma_frames_for_positive(rest);
        lemma_region_frames_positive(region);
        assert forall|n: int|
            page_of(start) <= n < page_of(start) + count implies !pages.contains(n) by {
            assert(holds_page(region, n));
        }
        if count > 0 {
            lemma_reach_bounds(m, start);
        }
        let keys1 = lemma_map_pages(m, keys, pages, start, count);
        let (next, mapped) = m.map_pages(start, start, count);
        let more = with_pages(pages, start, count);
        assert forall|i: int| 0 <= i < rest.len() implies unmapped(#[trigger] rest[i], more) by {
            assert(rest[i] == regions[i + 1]);
            assert(unmapped(regions[i + 1], pages));
            assert(apart(regions[0], regions[i + 1]));
            lemma_apart_pages(rest[i], region);
            assert forall|n: int| #[trigger] holds_page(rest[i], n) implies !more.contains(n) by {
                assert(!holds_page(region, n));
            }
        }
        assert forall|i: int, j: int| 0 <= i < j < rest.len() implies apart(
            #[trigger] rest[i],
            #[trigger] rest[j],
        ) by {
            assert(rest[i] == regions[i + 1] && rest[j] == regions[j + 1]);
        }
        lemma_map_regions(next, keys1, more, rest);
    }
}

/// No more than three tables lie on the way to a page.
proof fn lemma_reach_bounds(m: TableModel, virt: u64)
    ensures
        0 <= reach(m, virt) <= 3,
{
}

/// From a table without entries, regions that are page aligned, end within
/// the lower half of the address space and share no page are identity mapped
/// without an error when the pool holds the frames that are enough for the
/// tables of each region. `create_identity_mapping` on a new table returns
/// what `map_regions` gives here.
pub proof fn lemma_fresh_build_succeeds(root: u64, regions: Seq<MemoryRegion>)
    requires
        root % PAGE_SIZE == 0,
        root + PAGE_SIZE * (POOL_FRAMES + 1) <= PHYS_LIMIT,
        mappable(regions),
        frames_for(regions) <= POOL_FRAMES,
    ensures
        TableModel::empty(root).map_regions(regions).1 is Ok,
{
    lemma_empty_is_labelled(root);
    lemma_map_regions(
        TableModel::empty(root),
        Seq::new(POOL_FRAMES as nat, |i: int| 0int),
        Set::empty(),
        regions,
    );
}

} // verus!
