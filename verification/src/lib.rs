//! Verified core of a bare-metal virtual-memory subsystem: physical frame
//! accounting and a four-level page-table manager that builds, edits, and
//! switches address spaces before a general-purpose heap exists.
//!
//! Page tables live in physical frames and are addressed through an explicit
//! model of physical memory ([`paging::PhysMem`]); every table walk, map and
//! unmap is verified against that model.

use vstd::prelude::*;

pub mod bits;
pub mod bump_allocator;
pub mod controller;
pub mod frame;
pub mod frame_allocator;
pub mod frame_set;
pub mod mem_info;
pub mod memory_map;
pub mod paging;
pub mod stack_allocator;

verus! {

/// Size in bytes of one page or frame.
pub const PAGE_SIZE: u64 = 4096;

/// Number of entries in one page table.
pub const ENTRY_COUNT: usize = 512;

} // verus!
