//! RISC-V (rv64, Sv39).

pub mod csr;
pub mod paging;
pub mod plic;
pub mod riscv;
pub mod task;
pub mod trap;
pub mod vm;
