//! Paging and translation core of a firmware-resident physical-memory service:
//! the memory-map snapshot, the identity-mapped page table with its remapping
//! slots and frame allocators, the four-level address translator and the
//! command protocol that drives them.

pub mod frame_alloc;
pub mod free_list;
pub mod fresh_build;
pub mod hooks;
pub mod identity_page_table;
pub mod logger;
pub mod mem_maps;
pub mod phys_mem;
pub mod utils;
pub mod vtop;
pub mod wire;
