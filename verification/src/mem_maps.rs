//! Snapshot of the platform's physical memory map.
//!
//! The platform reports its memory map as a buffer of descriptors that lie a
//! fixed stride apart. A snapshot stores the descriptors in the order in
//! which the platform returned them and answers whether a physical address is
//! backed by usable memory.

use vstd::prelude::*;
use crate::wire::{le_u32, le_u64, read_u32_le, read_u64_le};

verus! {

/// Region kind of conventional, generally usable memory.
pub const CONVENTIONAL_MEMORY: u32 = 7;

/// Most regions that a snapshot stores.
pub const MAX_MEM_MAPS: usize = 1024;

/// Bytes of a descriptor that carry its fields; the stride is at least this.
pub const DESCRIPTOR_SIZE: usize = 40;

/// Bytes by which the buffer for the second query exceeds the reported size.
pub const BUFFER_SLACK: usize = 0x1000;

/// One region of the platform memory map. Sizes are counted in 4 KiB pages.
#[derive(Clone, Copy, Debug, PartialEq, Eq, Structural)]
pub struct MemoryRegion {
    pub kind: u32,
    pub physical_start: u64,
    pub virtual_start: u64,
    pub page_count: u64,
    pub attributes: u64,
}

impl MemoryRegion {
    /// Whether the region is conventional memory.
    pub open spec fn usable(&self) -> bool {
        self.kind == CONVENTIONAL_MEMORY
    }

    /// Whether `addr` lies in `[physical_start, physical_start + page_count * 4096)`.
    pub open spec fn covers(&self, addr: u64) -> bool {
        self.physical_start <= addr < self.physical_start + self.page_count * 0x1000
    }

    /// Whether the region is conventional memory.
    pub fn is_usable(&self) -> (usable: bool)
        ensures
            usable == self.usable(),
    {
        self.kind == CONVENTIONAL_MEMORY
    }

    /// Whether `addr` lies inside the region.
    pub fn contains(&self, addr: u64) -> (inside: bool)
        ensures
            inside == self.covers(addr),
    {
        addr >= self.physical_start && (addr - self.physical_start) / 0x1000 < self.page_count
    }
}

/// Why a snapshot could not be captured.
#[derive(Clone, Copy, Debug, PartialEq, Eq, Structural)]
pub enum MemMapError {
    /// A memory-map query did not answer as the protocol expects.
    QueryFailed,
    /// The buffer for the memory map could not be acquired or released.
    AllocationFailed,
    /// The platform reported more regions than a snapshot stores.
    CapacityExceeded,
}

/// The descriptor whose fields start at `offset` of `bytes`.
pub open spec fn descriptor_at(bytes: Seq<u8>, offset: int) -> MemoryRegion {
    MemoryRegion {
        kind: le_u32(bytes, offset) as u32,
        physical_start: le_u64(bytes, offset + 8) as u64,
        virtual_start: le_u64(bytes, offset + 16) as u64,
        page_count: le_u64(bytes, offset + 24) as u64,
        attributes: le_u64(bytes, offset + 32) as u64,
    }
}

/// The first `count` descriptors of `bytes`, `stride` bytes apart.
pub open spec fn descriptors(bytes: Seq<u8>, stride: int, count: int) -> Seq<MemoryRegion> {
    Seq::new(count as nat, |i: int| descriptor_at(bytes, i * stride))
}

/// Whether a filled buffer can be decoded: the stride holds a descriptor and
/// the buffer holds the reported size.
pub open spec fn decodable(bytes: Seq<u8>, map_size: int, stride: int) -> bool {
    stride >= DESCRIPTOR_SIZE && map_size <= bytes.len()
}

/// Outcome of decoding a filled buffer of `map_size` bytes.
pub open spec fn decoded(bytes: Seq<u8>, map_size: int, stride: int) -> Result<
    Seq<MemoryRegion>,
    MemMapError,
> {
    if !decodable(bytes, map_size, stride) {
        Err(MemMapError::QueryFailed)
    } else if map_size / stride > MAX_MEM_MAPS {
        Err(MemMapError::CapacityExceeded)
    } else {
        Ok(descriptors(bytes, stride, map_size / stride))
    }
}

/// Decodes the descriptor whose fields start at `offset` of `buffer`.
pub fn parse_descriptor(buffer: &[u8], offset: usize) -> (region: MemoryRegion)
    requires
        offset + DESCRIPTOR_SIZE <= buffer@.len(),
    ensures
        region == descriptor_at(buffer@, offset as int),
{
    assert(offset + DESCRIPTOR_SIZE <= buffer.len());
    MemoryRegion {
        kind: read_u32_le(buffer, offset),
        physical_start: read_u64_le(buffer, offset + 8),
        virtual_start: read_u64_le(buffer, offset + 16),
        page_count: read_u64_le(buffer, offset + 24),
        attributes: read_u64_le(buffer, offset + 32),
    }
}

/// Where the capture of a snapshot stands: what the platform is to be asked
/// next, or how the capture ended.
#[derive(Clone, Copy, Debug, PartialEq, Eq, Structural)]
pub enum LoadState {
    /// Query the memory map with a buffer that is too small.
    QuerySize,
    /// Acquire a buffer of `size` bytes.
    Allocate { size: usize },
    /// Query the memory map into the buffer of `size` bytes.
    Fill { size: usize },
    /// Release the buffer; the snapshot is stored.
    Release,
    /// The snapshot is stored and the buffer released.
    Loaded,
    /// The capture failed.
    Failed(MemMapError),
}

/// What the platform answered to the request of a `LoadState`.
pub enum LoadEvent {
    /// Answer to the first query: whether it reported "buffer too small",
    /// and the size it asks for.
    SizeReply { buffer_too_small: bool, map_size: usize },
    /// Whether the buffer was acquired.
    Allocated { ok: bool },
    /// Answer to the second query: whether it succeeded, the size and the
    /// stride it reported, and the buffer as it filled it.
    Filled { ok: bool, map_size: usize, descriptor_size: usize, buffer: Vec<u8> },
    /// Whether the buffer was released.
    Released { ok: bool },
}

/// The state after `event` arrived in `state`, and the regions stored then,
/// `stored` being those stored before.
pub open spec fn load_next(stored: Seq<MemoryRegion>, state: LoadState, event: LoadEvent) -> (
    LoadState,
    Seq<MemoryRegion>,
) {
    match (state, event) {
        (LoadState::QuerySize, LoadEvent::SizeReply { buffer_too_small, map_size }) => {
            if !buffer_too_small {
                (LoadState::Failed(MemMapError::QueryFailed), stored)
            } else if map_size + BUFFER_SLACK > usize::MAX {
                (LoadState::Failed(MemMapError::AllocationFailed), stored)
            } else {
                (LoadState::Allocate { size: (map_size + BUFFER_SLACK) as usize }, stored)
            }
        },
        (LoadState::Allocate { size }, LoadEvent::Allocated { ok }) => {
            if ok {
                (LoadState::Fill { size }, stored)
            } else {
                (LoadState::Failed(MemMapError::AllocationFailed), stored)
            }
        },
        (LoadState::Fill { size }, LoadEvent::Filled { ok, map_size, descriptor_size, buffer }) => {
            if !ok {
                (LoadState::Failed(MemMapError::QueryFailed), stored)
            } else {
                match decoded(buffer@, map_size as int, descriptor_size as int) {
                    Ok(regions) => (LoadState::Release, regions),
                    Err(error) => (LoadState::Failed(error), stored),
                }
            }
        },
        (LoadState::Release, LoadEvent::Released { ok }) => {
            if ok {
                (LoadState::Loaded, stored)
            } else {
                (LoadState::Failed(MemMapError::AllocationFailed), stored)
            }
        },
        (LoadState::Loaded, _) => (LoadState::Loaded, stored),
        (LoadState::Failed(error), _) => (LoadState::Failed(error), stored),
        _ => (LoadState::Failed(MemMapError::QueryFailed), stored),
    }
}

/// Reads and stores the memory map that the platform reports.
pub struct EfiMemMaps {
    mem_maps: Vec<MemoryRegion>,
}

impl View for EfiMemMaps {
    type V = Seq<MemoryRegion>;

    closed spec fn view(&self) -> Seq<MemoryRegion> {
        self.mem_maps@
    }
}

impl EfiMemMaps {
    /// The snapshot holds no more regions than its capacity.
    pub open spec fn wf(&self) -> bool {
        self@.len() <= MAX_MEM_MAPS
    }

    /// Whether some stored region of usable memory covers `addr`.
    pub open spec fn mapped(&self, addr: u64) -> bool {
        exists|i: int| 0 <= i < self@.len() && (#[trigger] self@[i]).usable() && self@[i].covers(addr)
    }

    /// An empty snapshot.
    pub fn new() -> (maps: Self)
        ensures
            maps.wf(),
            maps@ == Seq::<MemoryRegion>::empty(),
    {
        EfiMemMaps { mem_maps: Vec::new() }
    }

    /// The state in which a capture starts.
    pub fn begin_load() -> (state: LoadState)
        ensures
            state == LoadState::QuerySize,
    {
        LoadState::QuerySize
    }

    /// Decodes the filled `buffer` of `map_size` bytes, whose descriptors lie
    /// `descriptor_size` bytes apart, and stores its regions in place of
    /// those stored before. On an error the snapshot is unchanged.
    pub fn store_descriptors(&mut self, buffer: &[u8], map_size: usize, descriptor_size: usize) -> (stored:
        Result<(), MemMapError>)
        requires
            old(self).wf(),
        ensures
            final(self).wf(),
            match decoded(buffer@, map_size as int, descriptor_size as int) {
                Ok(regions) => stored is Ok && final(self)@ == regions,
                Err(error) => stored == Err::<(), MemMapError>(error) && final(self)@ == old(self)@,
            },
    {
        if descriptor_size < DESCRIPTOR_SIZE || map_size > buffer.len() {
            return Err(MemMapError::QueryFailed);
        }
        let count: usize = map_size / descriptor_size;
        if count > MAX_MEM_MAPS {
            return Err(MemMapError::CapacityExceeded);
        }
        let mut regions: Vec<MemoryRegion> = Vec::new();
        let mut i: usize = 0;
        while i < count
            invariant
                i <= count,
                count == map_size / descriptor_size,
                descriptor_size >= DESCRIPTOR_SIZE,
                map_size <= buffer@.len(),
                regions@ == descriptors(buffer@, descriptor_size as int, i as int),
            decreases count - i,
        {
            proof {
                lemma_descriptor_in_buffer(map_size as int, descriptor_size as int, i as int);
            }
            let region = parse_descriptor(buffer, i * descriptor_size);
            regions.push(region);
            i += 1;
        }
        self.mem_maps = regions;
        Ok(())
    }

    /// Takes one step of a capture: given the state and the platform's
    /// answer to its request, stores what the answer brought and returns the
    /// state that follows. An answer that does not belong to the state fails
    /// the capture with `QueryFailed`.
    pub fn load_maps(&mut self, state: LoadState, event: LoadEvent) -> (next: LoadState)
        requires
            old(self).wf(),
        ensures
            final(self).wf(),
            (next, final(self)@) == load_next(old(self)@, state, event),
    {
        match (state, event) {
            (LoadState::QuerySize, LoadEvent::SizeReply { buffer_too_small, map_size }) => {
                if !buffer_too_small {
                    LoadState::Failed(MemMapError::QueryFailed)
                } else {
                    match map_size.checked_add(BUFFER_SLACK) {
                        Some(size) => LoadState::Allocate { size },
                        None => LoadState::Failed(MemMapError::AllocationFailed),
                    }
                }
            },
            (LoadState::Allocate { size }, LoadEvent::Allocated { ok }) => {
                if ok {
                    LoadState::Fill { size }
                } else {
                    LoadState::Failed(MemMapError::AllocationFailed)
                }
            },
            (
                LoadState::Fill { size },
                LoadEvent::Filled { ok, map_size, descriptor_size, buffer },
            ) => {
                if !ok {
                    LoadState::Failed(MemMapError::QueryFailed)
                } else {
                    match self.store_descriptors(buffer.as_slice(), map_size, descriptor_size) {
                        Ok(()) => LoadState::Release,
                        Err(error) => LoadState::Failed(error),
                    }
                }
            },
            (LoadState::Release, LoadEvent::Released { ok }) => {
                if ok {
                    LoadState::Loaded
                } else {
                    LoadState::Failed(MemMapError::AllocationFailed)
                }
            },
            (LoadState::Loaded, _) => LoadState::Loaded,
            (LoadState::Failed(error), _) => LoadState::Failed(error),
            _ => LoadState::Failed(MemMapError::QueryFailed),
        }
    }

    /// Number of stored regions.
    pub fn len(&self) -> (n: usize)
        ensures
            n == self@.len(),
    {
        self.mem_maps.len()
    }

    /// Checks whether `base_addr` lies in a stored region of usable memory.
    pub fn is_mapped(&self, base_addr: u64) -> (mapped: bool)
        ensures
            mapped == self.mapped(base_addr),
    {
        let mut i: usize = 0;
        while i < self.mem_maps.len()
            invariant
                i <= self@.len(),
                forall|k: int| 0 <= k < i ==> !((#[trigger] self@[k]).usable() && self@[k].covers(base_addr)),
            decreases self@.len() - i,
        {
            let mem_map = &self.mem_maps[i];
            if mem_map.is_usable() && mem_map.contains(base_addr) {
                return true;
            }
            i += 1;
        }
        false
    }

    /// The stored regions, in the order in which the platform returned them.
    pub fn iter(&self) -> (regions: &[MemoryRegion])
        ensures
            regions@ == self@,
    {
        self.mem_maps.as_slice()
    }
}

/// Descriptor `i` of a buffer that holds `map_size / stride` of them ends
/// inside the first `map_size` bytes.
proof fn lemma_descriptor_in_buffer(map_size: int, stride: int, i: int)
    requires
        stride >= DESCRIPTOR_SIZE,
        0 <= i < map_size / stride,
    ensures
        0 <= i * stride,
        i * stride + DESCRIPTOR_SIZE <= map_size,
{
    assert(i * stride + stride <= map_size) by (nonlinear_arith)
        requires
            stride > 0,
            0 <= i < map_size / stride,
    ;
    assert(0 <= i * stride) by (nonlinear_arith)
        requires
            stride > 0,
            0 <= i,
    ;
}

} // verus!
