//! AArch64 (4 KiB granule, 39-bit addresses).

pub mod arm;
pub mod task;
pub mod vm;
