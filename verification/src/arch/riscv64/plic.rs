//! The platform-level interrupt controller: where its registers lie and
//! what to write to them.

use vstd::prelude::*;

verus! {

/// The interrupt of the first UART.
pub const UART0_IRQ: u32 = 10;

/// The interrupt of the first virtio device.
pub const VIRTIO0_IRQ: u32 = 1;

/// Bytes of the register block of the controller.
pub const PLIC_SIZE: u64 = 0x400_0000;

/// The interrupt sources the kernel uses.
#[derive(Copy, Clone, Debug, PartialEq, Eq, Structural)]
pub enum PlicIRQ {
    Uart0,
    VirtIO0,
}

impl PlicIRQ {
    /// The number of the source.
    pub open spec fn spec_number(self) -> u32 {
        match self {
            PlicIRQ::Uart0 => UART0_IRQ,
            PlicIRQ::VirtIO0 => VIRTIO0_IRQ,
        }
    }

    /// The number of the source.
    pub fn number(self) -> (r: u32)
        ensures
            r == self.spec_number(),
    {
        match self {
            PlicIRQ::Uart0 => UART0_IRQ,
            PlicIRQ::VirtIO0 => VIRTIO0_IRQ,
        }
    }

    /// The source with the number `irq`, if the kernel uses it.
    pub fn from_number(irq: u32) -> (r: Option<PlicIRQ>)
        ensures
            r == (if irq == UART0_IRQ {
                Some(PlicIRQ::Uart0)
            } else if irq == VIRTIO0_IRQ {
                Some(PlicIRQ::VirtIO0)
            } else {
                None
            }),
    {
        if irq == UART0_IRQ {
            Some(PlicIRQ::Uart0)
        } else if irq == VIRTIO0_IRQ {
            Some(PlicIRQ::VirtIO0)
        } else {
            None
        }
    }
}

/// One write of a 32-bit word to a device register, for the caller to
/// carry out.
#[derive(Copy, Clone, Debug, PartialEq, Eq, Structural)]
pub struct MmioWrite {
    pub addr: u64,
    pub value: u32,
}

/// Where the priority word of `source` lies.
pub open spec fn priority_addr(base: u64, source: u32) -> int {
    base + 4 * source
}

/// Where the word lies that holds the enable bit of `source` for
/// supervisor mode on `hart`.
pub open spec fn enable_addr(base: u64, hart: u64, source: u32) -> int {
    base + 0x2000 + hart * 0x100 + 0x80 + 4 * (source / 32)
}

/// Where the priority threshold for supervisor mode on `hart` lies.
pub open spec fn threshold_addr(base: u64, hart: u64) -> int {
    base + 0x20_0000 + hart * 0x2000 + 0x1000
}

/// Where the claim and complete register for supervisor mode on `hart`
/// lies.
pub open spec fn claim_addr(base: u64, hart: u64) -> int {
    threshold_addr(base, hart) + 4
}

/// The hart has registers inside the block of the controller.
pub open spec fn hart_in_range(hart: u64) -> bool {
    0x20_0000 + hart * 0x2000 + 0x1008 <= PLIC_SIZE
}

/// The interrupt controller whose registers start at `base`.
pub struct PLICManager {
    base: u64,
}

impl PLICManager {
    /// Where the registers start.
    pub closed spec fn base(&self) -> u64 {
        self.base
    }

    /// The controller whose registers start at `base`.
    pub fn new(base: u64) -> (m: Self)
        requires
            base <= u64::MAX - PLIC_SIZE,
        ensures
            m.base() == base,
            m.wf(),
    {
        Self { base }
    }

    /// The register block ends inside the address space.
    pub open spec fn wf(&self) -> bool {
        self.base() <= u64::MAX - PLIC_SIZE
    }

    /// Tests whether the hart has registers inside the block.
    pub fn is_hart_in_range(hart: u64) -> (r: bool)
        ensures
            r == hart_in_range(hart),
    {
        hart <= (PLIC_SIZE - 0x20_0000 - 0x1008) / 0x2000
    }

    fn enable(&self, hart: u64, source: PlicIRQ) -> (w: MmioWrite)
        requires
            self.wf(),
            hart_in_range(hart),
        ensures
            w.addr == enable_addr(self.base(), hart, source.spec_number()),
            w.value == 1u32 << (source.spec_number() % 32),
    {
        let number = source.number();
        let enable_base = self.base + 0x2000;
        MmioWrite {
            addr: enable_base + hart * 0x100 + 0x80 + 4 * ((number / 32) as u64),
            value: 1u32 << (number % 32),
        }
    }

    fn update_threshold(&self, hart: u64, threshold: u32) -> (w: MmioWrite)
        requires
            self.wf(),
            hart_in_range(hart),
        ensures
            w.addr == threshold_addr(self.base(), hart),
            w.value == threshold,
    {
        let threshold_base = self.base + 0x20_0000;
        MmioWrite { addr: threshold_base + hart * 0x2000 + 0x1000, value: threshold }
    }

    fn update_priority(&self, source: u32, priority: u32) -> (w: MmioWrite)
        requires
            self.wf(),
            source < 1024,
        ensures
            w.addr == priority_addr(self.base(), source),
            w.value == priority,
    {
        MmioWrite { addr: self.base + 4 * (source as u64), value: priority }
    }

    /// Where the claim and complete register of `hart` lies.
    pub fn claim_address(&self, hart: u64) -> (addr: u64)
        requires
            self.wf(),
            hart_in_range(hart),
        ensures
            addr == claim_addr(self.base(), hart),
    {
        let claim_base = self.base + 0x20_0000;
        claim_base + hart * 0x2000 + 0x1000 + 4
    }

    /// Lets interrupts of `source` through to supervisor mode on `hart`.
    /// The result is the list of register writes, in order: priority 1 for
    /// the source, its enable bit for the hart, threshold 0 for the hart.
    pub fn init_irq(&mut self, source: PlicIRQ, hart: u64) -> (writes: Vec<MmioWrite>)
        requires
            old(self).wf(),
            hart_in_range(hart),
        ensures
            final(self).base() == old(self).base(),
            writes@ == seq![
                MmioWrite {
                    addr: priority_addr(old(self).base(), source.spec_number()) as u64,
                    value: 1,
                },
                MmioWrite {
                    addr: enable_addr(old(self).base(), hart, source.spec_number()) as u64,
                    value: 1u32 << (source.spec_number() % 32),
                },
                MmioWrite { addr: threshold_addr(old(self).base(), hart) as u64, value: 0 },
            ],
    {
        let mut writes: Vec<MmioWrite> = Vec::new();
        writes.push(self.update_priority(source.number(), 1));
        writes.push(self.enable(hart, source));
        writes.push(self.update_threshold(hart, 0));
        assert(writes@ =~= seq![
            MmioWrite {
                addr: priority_addr(old(self).base(), source.spec_number()) as u64,
                value: 1,
            },
            MmioWrite {
                addr: enable_addr(old(self).base(), hart, source.spec_number()) as u64,
                value: 1u32 << (source.spec_number() % 32),
            },
            MmioWrite { addr: threshold_addr(old(self).base(), hart) as u64, value: 0 },
        ]);
        writes
    }

    /// The register to read to claim the pending interrupt of `hart`.
    pub fn read_claim(&self, hart: u64) -> (addr: u64)
        requires
            self.wf(),
            hart_in_range(hart),
        ensures
            addr == claim_addr(self.base(), hart),
    {
        self.claim_address(hart)
    }

    /// The write that tells the controller that `irq` was handled.
    pub fn send_complete(&self, irq: u32, hart: u64) -> (w: MmioWrite)
        requires
            self.wf(),
            hart_in_range(hart),
        ensures
            w == (MmioWrite { addr: claim_addr(self.base(), hart) as u64, value: irq }),
    {
        MmioWrite { addr: self.claim_address(hart), value: irq }
    }
}

} // verus!
