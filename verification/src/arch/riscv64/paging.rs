//! Switching the translation on.

use vstd::prelude::*;

verus! {

/// The translation schemes the kernel knows.
#[derive(Copy, Clone, Debug, PartialEq, Eq, Structural)]
pub enum VMMode {
    Sv39,
}

impl VMMode {
    /// The number of the scheme in the mode field of `satp`.
    pub open spec fn spec_value(self) -> u64 {
        8
    }

    /// The number of the scheme in the mode field of `satp`.
    pub fn value(self) -> (r: u64)
        ensures
            r == self.spec_value(),
    {
        match self {
            VMMode::Sv39 => 8,
        }
    }
}

/// The value of `satp` for a root table and a scheme: the scheme in the top
/// four bits, the page number of the root below.
pub open spec fn satp_value(root_page_table: u64, mode: VMMode) -> u64 {
    (mode.spec_value() << 60) | (root_page_table >> 12)
}

/// The part of the kernel that switches the translation on.
pub struct VMManager {}

impl VMManager {
    pub fn new() -> Self {
        Self {  }
    }

    /// The value to write to `satp` to translate through the root table at
    /// `root_page_table`. The translation cache has to be flushed after the
    /// write.
    pub fn enable_paging(&self, root_page_table: u64, mode: VMMode) -> (satp: u64)
        ensures
            satp == satp_value(root_page_table, mode),
    {
        mode.value() << 60 | (root_page_table >> 12)
    }
}

/// For a root below 2^56, `satp` holds the scheme and the page number side
/// by side: both can be read back.
pub proof fn lemma_satp_fields(root_page_table: u64)
    by (bit_vector)
    requires
        root_page_table < 0x100_0000_0000_0000,
    ensures
        ((8u64 << 60) | (root_page_table >> 12)) >> 60 == 8,
        ((8u64 << 60) | (root_page_table >> 12)) & 0xfff_ffff_ffff == root_page_table >> 12,
{
}

} // verus!
