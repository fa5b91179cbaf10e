//! Legacy virtio over MMIO.

pub mod block;
pub mod header;
pub mod queue;
