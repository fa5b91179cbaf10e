//! What the supported instruction sets have in common.

use vstd::prelude::*;

pub mod aarch64;
pub mod riscv64;

verus! {

/// Identity of a hart or core.
pub type CpuId = usize;

/// Bytes in a page.
pub const PAGE_SIZE: u64 = 4096;

/// Bits of the offset inside a page.
pub const PAGE_SHIFT: u64 = 12;

/// Entries in one page table.
pub const TABLE_ENTRIES: usize = 512;

/// Levels of tables between a root and a page.
pub const LEVELS: usize = 3;

/// Whether `addr` is a multiple of the page size.
pub open spec fn page_aligned(addr: u64) -> bool {
    addr % PAGE_SIZE == 0
}

/// Tests whether `addr` is a multiple of the page size.
pub fn is_page_aligned(addr: u64) -> (r: bool)
    ensures
        r == page_aligned(addr),
{
    addr % PAGE_SIZE == 0
}

} // verus!
