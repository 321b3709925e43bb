//! A window of physical memory, held as 64-bit words.
//!
//! Page-table structures are read and written through this type. A window
//! starts at a page-aligned physical address and covers a whole number of
//! words; every address outside the window reads as zero.

use vstd::prelude::*;

verus! {

/// Size of a page frame in bytes.
pub const PAGE_SIZE: u64 = 0x1000;

/// Number of 64-bit entries in one page frame.
pub const ENTRIES_PER_FRAME: usize = 512;

/// First address that no physical address can reach (52 address bits).
pub const PHYS_LIMIT: u64 = 0x0010_0000_0000_0000;

pub struct PhysMemory {
    base: u64,
    words: Vec<u64>,
}

impl PhysMemory {
    /// Physical address of the first word of the window.
    pub closed spec fn base(&self) -> u64 {
        self.base
    }

    /// The words of the window, in address order.
    pub closed spec fn words(&self) -> Seq<u64> {
        self.words@
    }

    /// The window starts on a page boundary and ends below the physical limit.
    pub open spec fn wf(&self) -> bool {
        &&& self.base() % PAGE_SIZE == 0
        &&& self.base() + 8 * self.words().len() <= PHYS_LIMIT
    }

    /// Whether `addr` is the address of a word of the window.
    pub open spec fn contains(&self, addr: u64) -> bool {
        &&& self.base() <= addr
        &&& addr < self.base() + 8 * self.words().len()
        &&& (addr - self.base()) % 8 == 0
    }

    /// Position in `words()` of the word at `addr`.
    pub open spec fn word_index(&self, addr: u64) -> int {
        (addr - self.base()) / 8
    }

    /// The word seen at `addr`: the stored word inside the window, zero elsewhere.
    pub open spec fn read_spec(&self, addr: u64) -> u64 {
        if self.contains(addr) {
            self.words()[self.word_index(addr)]
        } else {
            0
        }
    }

    /// A zero-filled window of `frames` page frames starting at `base`.
    pub fn new(base: u64, frames: usize) -> (mem: PhysMemory)
        requires
            base % PAGE_SIZE == 0,
            base + PAGE_SIZE * frames <= PHYS_LIMIT,
        ensures
            mem.wf(),
            mem.base() == base,
            mem.words().len() == ENTRIES_PER_FRAME * frames,
            forall|i: int| 0 <= i < mem.words().len() ==> mem.words()[i] == 0,
    {
        let mut words: Vec<u64> = Vec::new();
        let mut frame: usize = 0;
        while frame < frames
            invariant
                frame <= frames,
                words@.len() == ENTRIES_PER_FRAME * frame,
                forall|i: int| 0 <= i < words@.len() ==> words@[i] == 0,
            decreases frames - frame,
        {
            let mut slot: usize = 0;
            while slot < ENTRIES_PER_FRAME
                invariant
                    slot <= ENTRIES_PER_FRAME,
                    frame < frames,
                    words@.len() == ENTRIES_PER_FRAME * frame + slot,
                    forall|i: int| 0 <= i < words@.len() ==> words@[i] == 0,
                decreases ENTRIES_PER_FRAME - slot,
            {
                words.push(0u64);
                slot += 1;
            }
            frame += 1;
        }
        PhysMemory { base, words }
    }

    /// A window over the given words, the first of them at `base`.
    pub fn from_words(base: u64, words: Vec<u64>) -> (mem: PhysMemory)
        requires
            base % PAGE_SIZE == 0,
            base + 8 * words@.len() <= PHYS_LIMIT,
        ensures
            mem.wf(),
            mem.base() == base,
            mem.words() == words@,
    {
        PhysMemory { base, words }
    }

    /// Physical address of the first word of the window.
    pub fn base_addr(&self) -> (base: u64)
        ensures
            base == self.base(),
    {
        self.base
    }

    /// Number of words in the window.
    pub fn len(&self) -> (n: usize)
        ensures
            n == self.words().len(),
    {
        self.words.len()
    }

    /// Whether `addr` is the address of a word of the window.
    pub fn holds(&self, addr: u64) -> (inside: bool)
        requires
            self.wf(),
        ensures
            inside == self.contains(addr),
    {
        addr >= self.base && (addr - self.base) % 8 == 0 && (addr - self.base) / 8 < (
        self.words.len() as u64)
    }

    /// Reads the word at `addr`; an address outside the window reads as zero.
    pub fn read(&self, addr: u64) -> (word: u64)
        requires
            self.wf(),
        ensures
            word == self.read_spec(addr),
    {
        if self.holds(addr) {
            assert((addr - self.base) / 8 < self.words.len());
            self.words[((addr - self.base) / 8) as usize]
        } else {
            0
        }
    }

    /// Stores `word` at `addr`. Returns whether `addr` lies in the window; the
    /// window is unchanged when it does not.
    pub fn write(&mut self, addr: u64, word: u64) -> (stored: bool)
        requires
            old(self).wf(),
        ensures
            final(self).wf(),
            final(self).base() == old(self).base(),
            stored == old(self).contains(addr),
            stored ==> final(self).words() == old(self).words().update(
                old(self).word_index(addr),
                word,
            ),
            !stored ==> final(self).words() == old(self).words(),
    {
        if self.holds(addr) {
            assert((addr - self.base) / 8 < self.words.len());
            let index = ((addr - self.base) / 8) as usize;
            self.words.set(index, word);
            true
        } else {
            false
        }
    }
}

/// After a write inside the window, the written address reads back the new
/// word and every other address reads as before.
pub proof fn lemma_write_read(before: PhysMemory, after: PhysMemory, addr: u64, word: u64, at: u64)
    requires
        before.wf(),
        before.contains(addr),
        after.base() == before.base(),
        after.words() == before.words().update(before.word_index(addr), word),
    ensures
        after.read_spec(at) == if at == addr {
            word
        } else {
            before.read_spec(at)
        },
{
}

} // verus!
