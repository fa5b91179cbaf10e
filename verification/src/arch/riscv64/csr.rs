//! Control and status registers: their names and the fields the kernel uses.
//! Reading and writing them is left to the caller.

use vstd::prelude::*;

verus! {

/// Fields of `mstatus`.
#[derive(Copy, Clone, PartialEq, Eq, Structural)]
pub enum Mstatus {
    MPP,
    SPIE,
    MPIE,
    SIE,
    MIE,
    FS,
}

impl Mstatus {
    /// The bits of the field.
    pub open spec fn spec_mask(self) -> u64 {
        match self {
            Mstatus::MPP => 0x1800,
            Mstatus::SPIE => 0x20,
            Mstatus::MPIE => 0x80,
            Mstatus::SIE => 0x2,
            Mstatus::MIE => 0x8,
            Mstatus::FS => 0x6000,
        }
    }

    /// The position of the lowest bit of the field.
    pub open spec fn spec_index(self) -> u64 {
        match self {
            Mstatus::MPP => 11,
            Mstatus::SPIE => 5,
            Mstatus::MPIE => 7,
            Mstatus::SIE => 1,
            Mstatus::MIE => 3,
            Mstatus::FS => 13,
        }
    }

    /// The bits of the field.
    pub fn mask(&self) -> (r: u64)
        ensures
            r == self.spec_mask(),
    {
        match self {
            Mstatus::MPP => 0x1800,
            Mstatus::SPIE => 0x20,
            Mstatus::MPIE => 0x80,
            Mstatus::SIE => 0x2,
            Mstatus::MIE => 0x8,
            Mstatus::FS => 0x6000,
        }
    }

    /// The position of the lowest bit of the field.
    pub fn index(&self) -> (r: u64)
        ensures
            r == self.spec_index(),
            r < 64,
    {
        match self {
            Mstatus::MPP => 11,
            Mstatus::SPIE => 5,
            Mstatus::MPIE => 7,
            Mstatus::SIE => 1,
            Mstatus::MIE => 3,
            Mstatus::FS => 13,
        }
    }
}

/// Fields of `sstatus`.
#[derive(Copy, Clone, PartialEq, Eq, Structural)]
pub enum Sstatus {
    SPP,
    SPIE,
    SIE,
    FS,
}

impl Sstatus {
    /// The bits of the field.
    pub open spec fn spec_mask(self) -> u64 {
        match self {
            Sstatus::SPP => 0x100,
            Sstatus::SPIE => 0x20,
            Sstatus::SIE => 0x2,
            Sstatus::FS => 0x6000,
        }
    }

    /// The position of the lowest bit of the field.
    pub open spec fn spec_index(self) -> u64 {
        match self {
            Sstatus::SPP => 8,
            Sstatus::SPIE => 5,
            Sstatus::SIE => 1,
            Sstatus::FS => 13,
        }
    }

    /// The bits of the field.
    pub fn mask(&self) -> (r: u64)
        ensures
            r == self.spec_mask(),
    {
        match self {
            Sstatus::SPP => 0x100,
            Sstatus::SPIE => 0x20,
            Sstatus::SIE => 0x2,
            Sstatus::FS => 0x6000,
        }
    }

    /// The position of the lowest bit of the field.
    pub fn index(&self) -> (r: u64)
        ensures
            r == self.spec_index(),
            r < 64,
    {
        match self {
            Sstatus::SPP => 8,
            Sstatus::SPIE => 5,
            Sstatus::SIE => 1,
            Sstatus::FS => 13,
        }
    }
}

/// Fields of `mie`.
#[derive(Copy, Clone, PartialEq, Eq, Structural)]
pub enum Mie {
    MTIE,
}

impl Mie {
    /// The bits of the field.
    pub open spec fn spec_mask(self) -> u64 {
        0x80
    }

    /// The bits of the field.
    pub fn mask(&self) -> (r: u64)
        ensures
            r == self.spec_mask(),
    {
        0x80
    }

    /// The position of the lowest bit of the field.
    pub fn index(&self) -> (r: u64)
        ensures
            r == 7,
    {
        7
    }
}

/// Fields of `sie`.
#[derive(Copy, Clone, PartialEq, Eq, Structural)]
pub enum Sie {
    SSIE,
    STIE,
    SEIE,
}

impl Sie {
    /// The bits of the field.
    pub open spec fn spec_mask(self) -> u64 {
        match self {
            Sie::SSIE => 0x2,
            Sie::STIE => 0x20,
            Sie::SEIE => 0x200,
        }
    }

    /// The position of the lowest bit of the field.
    pub open spec fn spec_index(self) -> u64 {
        match self {
            Sie::SSIE => 1,
            Sie::STIE => 5,
            Sie::SEIE => 9,
        }
    }

    /// The bits of the field.
    pub fn mask(&self) -> (r: u64)
        ensures
            r == self.spec_mask(),
    {
        match self {
            Sie::SSIE => 0x2,
            Sie::STIE => 0x20,
            Sie::SEIE => 0x200,
        }
    }

    /// The position of the lowest bit of the field.
    pub fn index(&self) -> (r: u64)
        ensures
            r == self.spec_index(),
            r < 64,
    {
        match self {
            Sie::SSIE => 1,
            Sie::STIE => 5,
            Sie::SEIE => 9,
        }
    }
}

/// The registers the kernel names.
#[derive(Debug, Copy, Clone, PartialEq, Eq, Structural)]
pub enum Csr {
    Misa,
    Mvendorid,
    Marchid,
    Mimpid,
    Mhartid,
    Mstatus,
    Mtvec,
    Medeleg,
    Mideleg,
    Mip,
    Mie,
    Mcounteren,
    Mcountinhibit,
    Mscratch,
    Mepc,
    Mcause,
    Mtval,
    Sstatus,
    Stvec,
    Sip,
    Sie,
    Scounteren,
    Sscratch,
    Sepc,
    Scause,
    Stval,
    Satp,
}

/// Every field starts at its index: the mask has a bit there and none below.
pub proof fn lemma_field_index()
    by (bit_vector)
    ensures
        0x1800u64 >> 11u64 == 3 && 0x1800u64 & 0x7ff == 0,
        0x6000u64 >> 13u64 == 3 && 0x6000u64 & 0x1fff == 0,
        0x100u64 == 1u64 << 8u64,
        0x200u64 == 1u64 << 9u64,
        0x80u64 == 1u64 << 7u64,
        0x20u64 == 1u64 << 5u64,
        0x8u64 == 1u64 << 3u64,
        0x2u64 == 1u64 << 1u64,
{
}

} // verus!
