//! The execution substrate of a small kernel for RISC-V (`virt`) and AArch64
//! (Raspberry Pi 3B): interrupt state, the kernel lock, page tables, tasks
//! with a round-robin scheduler, and a legacy virtio block driver.
//!
//! Every decision the kernel makes is a verified function over plain values.
//! Registers, instructions and device memory stay with the caller: functions
//! take what was read from the hardware and return what has to be written.
//! Addresses and register values are `u64` throughout.

pub mod allocator;
pub mod arch;
pub mod device;
pub mod elf;
pub mod error;
pub mod fs;
pub mod interrupt;
pub mod registry;
pub mod sync;
pub mod task;
pub mod uefi;
