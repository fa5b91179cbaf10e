//! The state of one core.

use crate::arch::CpuId;
use vstd::prelude::*;

verus! {

/// The low bits of `mpidr_el1` that number the core.
pub const CORE_MASK: u64 = 0b11;

/// The state of one core. The kernel keeps none on this machine.
pub struct CpuState {}

impl CpuState {
    pub fn new() -> Self {
        Self {  }
    }

    /// The number of the core whose `mpidr_el1` holds `mpidr`.
    pub fn cpuid(&self, mpidr: u64) -> (id: CpuId)
        ensures
            id == mpidr & CORE_MASK,
            id < 4,
    {
        assert(mpidr & 0b11 < 4) by (bit_vector);
        (mpidr & CORE_MASK) as usize
    }
}

} // verus!
