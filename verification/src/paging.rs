//! The four-level page-table manager: entries, tables, the physical-memory
//! model they live in, and the mapper that walks and edits the tree.

use vstd::prelude::*;

pub mod entry;
pub mod mapper;
pub mod phys_mem;
pub mod active_page_table;
pub mod inactive_page_table;
pub mod page;
pub mod temporary_page;
pub mod table;

pub use self::page::{Page, PageIter};
pub use self::entry::{Entry, EntryFlags};
pub use self::table::Table;
pub use self::phys_mem::PhysMem;
pub use self::mapper::Mapper;
pub use self::active_page_table::ActivePageTable;
pub use self::inactive_page_table::InactivePageTable;
pub use self::temporary_page::{TemporaryPage, TinyAllocator};

verus! {

/// A physical address.
pub type PhysicalAddr = u64;

/// A virtual address.
pub type VirtualAddr = u64;

} // verus!
