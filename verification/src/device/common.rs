//! Drivers that do not depend on the board.

pub mod virtio;
