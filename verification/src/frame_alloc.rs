//! Allocators of page frames for page-table structures.

use vstd::prelude::*;
use crate::free_list::{lemma_push_fresh, ConcurrentStaticVec};
use crate::phys_mem::{PAGE_SIZE, PHYS_LIMIT};

verus! {

/// Calls `x86_64::structures::paging::PhysFrame::<Size4KiB>::from_start_address`
/// on `x86_64::PhysAddr::new(addr)` and hands back the start address of the
/// frame. The frame exists exactly when `addr` is a multiple of the page
/// size, and then starts at `addr`. `PhysAddr::new` panics on an address with
/// a bit above bit 51 set, which the precondition leaves out.
#[verifier::external_body]
fn frame_start(addr: u64) -> (start: Option<u64>)
    requires
        addr < PHYS_LIMIT,
    ensures
        start == if addr % PAGE_SIZE == 0 {
            Some(addr)
        } else {
            None::<u64>
        },
{
    match x86_64::structures::paging::PhysFrame::<
        x86_64::structures::paging::Size4KiB,
    >::from_start_address(x86_64::PhysAddr::new(addr)) {
        Ok(frame) => Some(frame.start_address().as_u64()),
        Err(_) => None,
    }
}

/// Whether every value of `s` is below `n`.
pub open spec fn all_below(s: Seq<usize>, n: int) -> bool {
    forall|i: int| 0 <= i < s.len() ==> (#[trigger] s[i]) < n
}

/// A sequence of distinct indices below `n` has at most `n` of them.
pub proof fn lemma_distinct_indices_fit(s: Seq<usize>, n: int)
    requires
        s.no_duplicates(),
        all_below(s, n),
        0 <= n,
    ensures
        s.len() <= n,
    decreases n,
{
    if n == 0 {
        if s.len() > 0 {
            assert(s[0] < n);
        }
    } else if exists|k: int| 0 <= k < s.len() && s[k] == n - 1 {
        let k = choose|k: int| 0 <= k < s.len() && s[k] == n - 1;
        let rest = s.remove(k);
        assert forall|i: int| 0 <= i < rest.len() implies (#[trigger] rest[i]) < n - 1 by {}
        assert forall|i: int, j: int| 0 <= i < rest.len() && 0 <= j < rest.len() && i
            != j implies rest[i] != rest[j] by {}
        lemma_distinct_indices_fit(rest, n - 1);
    } else {
        assert forall|i: int| 0 <= i < s.len() implies (#[trigger] s[i]) < n - 1 by {}
        lemma_distinct_indices_fit(s, n - 1);
    }
}

/// A sequence of distinct indices below `n` that lacks one of them has fewer
/// than `n`.
pub proof fn lemma_room_for_missing(s: Seq<usize>, n: int, missing: usize)
    requires
        s.no_duplicates(),
        all_below(s, n),
        missing < n,
        !s.contains(missing),
    ensures
        s.len() < n,
        s.push(missing).no_duplicates(),
        all_below(s.push(missing), n),
{
    lemma_push_fresh(s, missing);
    let t = s.push(missing);
    assert forall|i: int| 0 <= i < t.len() implies (#[trigger] t[i]) < n by {}
    lemma_distinct_indices_fit(t, n);
}

/// Rounds `addr` up to the next page boundary.
pub fn align_addr_forward(addr: u64) -> (aligned: u64)
    requires
        addr <= u64::MAX - PAGE_SIZE,
    ensures
        aligned % PAGE_SIZE == 0,
        addr <= aligned < addr + PAGE_SIZE,
{
    if addr % PAGE_SIZE == 0 {
        addr
    } else {
        (addr + PAGE_SIZE) - (addr + PAGE_SIZE) % PAGE_SIZE
    }
}

/// Hands out the `N` page frames of a pool that starts at a fixed physical
/// address. A frame is either free or handed out; the free ones are kept on
/// a stack of frame indices.
pub struct StaticFrameAllocator<const N: usize> {
    base: u64,
    free_frames: ConcurrentStaticVec<usize, N>,
}

impl<const N: usize> StaticFrameAllocator<N> {
    /// Physical address of frame 0 of the pool.
    pub closed spec fn base(&self) -> u64 {
        self.base
    }

    /// Indices of the free frames; the last one is handed out next.
    pub closed spec fn free(&self) -> Seq<usize> {
        self.free_frames@
    }

    /// Physical address of frame `index` of the pool.
    pub open spec fn frame_addr(&self, index: int) -> int {
        self.base() + index * PAGE_SIZE
    }

    /// The pool starts on a page boundary and lies below the physical limit,
    /// and no frame is free twice.
    pub open spec fn wf(&self) -> bool {
        &&& self.base() % PAGE_SIZE == 0
        &&& self.base() + N * PAGE_SIZE <= PHYS_LIMIT
        &&& self.free().len() <= N
        &&& self.free().no_duplicates()
        &&& all_below(self.free(), N as int)
    }

    /// An allocator for the pool at `base`, with all frames free; frame
    /// `N - 1` is handed out first.
    pub fn new(base: u64) -> (allocator: Self)
        requires
            base % PAGE_SIZE == 0,
            base + N * PAGE_SIZE <= PHYS_LIMIT,
        ensures
            allocator.wf(),
            allocator.base() == base,
            allocator.free() == Seq::new(N as nat, |i: int| i as usize),
    {
        let mut free_frames: ConcurrentStaticVec<usize, N> = ConcurrentStaticVec::new();
        let mut cnt: usize = 0;
        while cnt < N
            invariant
                cnt <= N,
                free_frames.wf(),
                free_frames@ == Seq::new(cnt as nat, |i: int| i as usize),
            decreases N - cnt,
        {
            free_frames.push(cnt);
            cnt += 1;
        }
        StaticFrameAllocator { base, free_frames }
    }

    /// Number of free frames.
    pub fn free_count(&self) -> (n: usize)
        ensures
            n == self.free().len(),
    {
        self.free_frames.len()
    }

    /// Takes the frame on top of the free stack and returns its physical
    /// address. `None` when no frame is free.
    pub fn allocate_frame(&mut self) -> (frame: Option<u64>)
        requires
            old(self).wf(),
        ensures
            final(self).wf(),
            final(self).base() == old(self).base(),
            old(self).free().len() == 0 ==> frame is None && final(self).free() == old(self).free(),
            old(self).free().len() > 0 ==> final(self).free() == old(self).free().drop_last()
                && !final(self).free().contains(old(self).free().last()) && frame == Some(
                old(self).frame_addr(old(self).free().last() as int) as u64,
            ),
    {
        match self.free_frames.pop() {
            Some(index) => {
                assert(index * PAGE_SIZE <= N * PAGE_SIZE) by (nonlinear_arith)
                    requires
                        index < N,
                ;
                assert forall|i: int| 0 <= i < self.free().len() implies (
                #[trigger] self.free()[i]) < N by {}
                frame_start(self.base + (index as u64) * PAGE_SIZE)
            },
            None => None,
        }
    }

    /// Whether `frame` is the start of a frame of the pool that is handed out.
    pub open spec fn handed_out(&self, frame: u64) -> bool {
        &&& self.base() <= frame < self.base() + N * PAGE_SIZE
        &&& (frame - self.base()) % (PAGE_SIZE as int) == 0
        &&& !self.free().contains(((frame - self.base()) / (PAGE_SIZE as int)) as usize)
    }

    /// Whether `frame` is the start of a frame of the pool that is handed out.
    pub fn is_handed_out(&self, frame: u64) -> (out: bool)
        requires
            self.wf(),
        ensures
            out == self.handed_out(frame),
    {
        if frame < self.base || (frame - self.base) % PAGE_SIZE != 0 || (frame - self.base)
            / PAGE_SIZE >= N as u64 {
            return false;
        }
        !self.free_frames.holds(((frame - self.base) / PAGE_SIZE) as usize)
    }

    /// Takes back a frame that was handed out: its index goes on top of the
    /// free stack.
    pub fn deallocate_frame(&mut self, frame: u64)
        requires
            old(self).wf(),
            old(self).handed_out(frame),
        ensures
            final(self).wf(),
            final(self).base() == old(self).base(),
            final(self).free() == old(self).free().push(
                ((frame - old(self).base()) / (PAGE_SIZE as int)) as usize,
            ),
    {
        let off: u64 = frame - self.base;
        let idx: usize = (off / PAGE_SIZE) as usize;
        proof {
            lemma_room_for_missing(self.free(), N as int, idx);
        }
        self.free_frames.push(idx);
    }
}

/// Bytes to ask the platform for so that the block holds one whole frame.
pub const DYNAMIC_REQUEST_SIZE: usize = 0x2000;

/// Turns blocks that the platform's pool allocation hands out into frames.
#[derive(Default)]
pub struct DynamicFrameAllocator;

impl DynamicFrameAllocator {
    /// The frame within the block of `DYNAMIC_REQUEST_SIZE` bytes at `block`:
    /// it starts at the first page boundary at or behind `block`. `None`
    /// when the platform handed out no block, or one that does not lie below
    /// the physical limit.
    pub fn allocate_frame(&mut self, block: Option<u64>) -> (frame: Option<u64>)
        ensures
            match block {
                Some(addr) if addr + PAGE_SIZE <= PHYS_LIMIT => {
                    &&& frame is Some
                    &&& frame->0 % PAGE_SIZE == 0
                    &&& addr <= frame->0 < addr + PAGE_SIZE
                },
                _ => frame is None,
            },
    {
        match block {
            Some(addr) => {
                if addr > PHYS_LIMIT - PAGE_SIZE {
                    return None;
                }
                frame_start(align_addr_forward(addr))
            },
            None => None,
        }
    }
}

} // verus!
