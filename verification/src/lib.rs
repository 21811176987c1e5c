//! A verified virtual-memory core for a small teaching kernel.
//!
//! The crate models the memory-management heart of a kernel: a physical
//! frame allocator, a page table mapping virtual page numbers to physical
//! frames with permission bits, an address space offering `mmap`, `munmap`
//! and `sbrk`, and a cross-space buffer translator that turns a foreign
//! virtual byte range into page-bounded physical slices.  Thin syscall
//! adapters marshal fixed records (a timestamp, a task-info snapshot)
//! through the translator into user memory.

use vstd::prelude::*;

pub mod addr_space;
pub mod encode;
pub mod frame;
pub mod laws;
pub mod page_table;
pub mod phys;
pub mod syscall;
pub mod translator;

verus! {

/// Size in bytes of one virtual page and of one physical frame.
pub const PAGE_SIZE: usize = 4096;

/// Highest virtual address this core manages (exclusive).
pub const MAX_VA: usize = 0x4000_0000;

/// Highest virtual page number (exclusive); `MAX_VA` in pages.
pub const MAX_VPN: usize = MAX_VA / PAGE_SIZE;

/// Capacity of the per-task syscall counter table.
pub const MAX_SYSCALL_NUM: usize = 500;

/// The error taxonomy of the core.  Syscall adapters collapse every
/// variant to a single `-1` sentinel; internally the variants stay
/// distinct.
#[derive(Clone, Copy, Debug, PartialEq, Eq, Structural)]
pub enum MemError {
    /// A start address was not page-aligned.
    Unaligned,
    /// A permission word had bits outside the read/write/execute set.
    InvalidPermission,
    /// A permission word allowed no access at all.
    EmptyPermission,
    /// A page of the requested range is already mapped.
    OverlapExisting,
    /// The page table already holds a valid entry for the page.
    AlreadyMapped,
    /// A page of the requested range is not mapped.
    NotMapped,
    /// The frame allocator ran out of physical frames.
    OutOfMemory,
    /// A translated byte range touched an unmapped page.
    UnmappedAccess,
}

} // verus!
