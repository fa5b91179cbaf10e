//! What a trap into the kernel means.

use crate::arch::riscv64::plic::PlicIRQ;
use vstd::prelude::*;

verus! {

/// The bit of `scause` that tells interrupts from exceptions.
pub const SCAUSE_INTERRUPT: u64 = 0x8000_0000_0000_0000;

/// The cause code of a supervisor external interrupt.
pub const SUPERVISOR_EXTERNAL: u64 = 9;

/// What the kernel does about a trap.
#[derive(Copy, Clone, Debug, PartialEq, Eq, Structural)]
pub enum TrapCause {
    /// An instruction, load or store page fault: fatal in the kernel.
    PageFault,
    /// Any other exception: fatal in the kernel.
    Exception,
    /// An external interrupt: claim it, hand it to its driver, complete it,
    /// and tell the kernel lock.
    ExternalInterrupt,
    /// Any other interrupt: tell the kernel lock, nothing else.
    OtherInterrupt,
}

/// The meaning of a value of `scause`.
pub open spec fn trap_cause(scause: u64) -> TrapCause {
    if scause & SCAUSE_INTERRUPT == 0 {
        if scause == 12 || scause == 13 || scause == 15 {
            TrapCause::PageFault
        } else {
            TrapCause::Exception
        }
    } else if scause & 0xff == SUPERVISOR_EXTERNAL {
        TrapCause::ExternalInterrupt
    } else {
        TrapCause::OtherInterrupt
    }
}

/// Decodes `scause`, the cause of a trap into the kernel.
pub fn kernel_trap(scause: u64) -> (cause: TrapCause)
    ensures
        cause == trap_cause(scause),
{
    assert(scause & (1u64 << 63) == scause & 0x8000_0000_0000_0000u64) by (bit_vector);
    if scause & (1u64 << 63) == 0 {
        match scause {
            12 | 13 | 15 => TrapCause::PageFault,
            _ => TrapCause::Exception,
        }
    } else if scause & 0x8000_0000_0000_0000 != 0 && scause & 0xff == 9 {
        TrapCause::ExternalInterrupt
    } else {
        TrapCause::OtherInterrupt
    }
}

/// The driver that owns the interrupt `irq`, which was claimed from the
/// controller. `None` for an interrupt no driver owns.
pub fn dispatch(irq: u32) -> (owner: Option<PlicIRQ>)
    ensures
        owner == (if irq == 10 {
            Some(PlicIRQ::Uart0)
        } else if irq == 1 {
            Some(PlicIRQ::VirtIO0)
        } else {
            None
        }),
{
    PlicIRQ::from_number(irq)
}

} // verus!
