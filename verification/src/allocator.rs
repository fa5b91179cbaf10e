//! The kernel heap.

use crate::allocator::watermark::WaterMarkAllocator;
use vstd::prelude::*;

pub mod dlmalloc;
pub mod watermark;

verus! {

/// The heap allocator over the region `[heap_start, heap_end)` that the
/// linker script sets aside.
pub fn init_allocator(heap_start: u64, heap_end: u64) -> (a: WaterMarkAllocator)
    ensures
        a.position() == heap_start,
        a.end() == heap_end,
{
    WaterMarkAllocator::new(heap_start, heap_end)
}

} // verus!
