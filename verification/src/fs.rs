//! What the file system needs from the kernel: a cache of sectors.

pub mod buffer;
