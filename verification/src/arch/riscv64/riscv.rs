//! The interrupt state of one hart.

use crate::arch::CpuId;
use crate::interrupt::Backup;
use vstd::prelude::*;

verus! {

/// The supervisor interrupt enable bit of `sstatus`.
pub const SSTATUS_SIE: u64 = 0x2;

/// What the state of a hart is to the proofs.
pub struct CpuModel {
    pub id: CpuId,
    pub sstatus: u64,
    pub depth: nat,
    pub saved: bool,
}

impl CpuModel {
    /// Interrupts are enabled.
    pub open spec fn enabled(self) -> bool {
        self.sstatus & SSTATUS_SIE != 0
    }

    /// Inside a section that disabled interrupts, they are disabled.
    pub open spec fn wf(self) -> bool {
        self.depth > 0 ==> !self.enabled()
    }

    /// `later` differs from `self` in the interrupt enable bit at most.
    pub open spec fn same_but_enable(self, later: CpuModel) -> bool {
        &&& later.id == self.id
        &&& later.depth == self.depth
        &&& later.saved == self.saved
        &&& later.sstatus & !SSTATUS_SIE == self.sstatus & !SSTATUS_SIE
    }

    /// The state after interrupts were switched on.
    pub open spec fn on(self) -> CpuModel {
        CpuModel { sstatus: self.sstatus | SSTATUS_SIE, ..self }
    }

    /// The state after interrupts were switched off.
    pub open spec fn off(self) -> CpuModel {
        CpuModel { sstatus: self.sstatus & !SSTATUS_SIE, ..self }
    }

    /// The state after entering a section that disables interrupts: they
    /// are off and the depth grows by one. The outermost section remembers
    /// whether they were on.
    pub open spec fn push(self) -> CpuModel {
        CpuModel {
            sstatus: self.sstatus & !SSTATUS_SIE,
            depth: self.depth + 1,
            saved: if self.depth == 0 { self.enabled() } else { self.saved },
            ..self
        }
    }

    /// The state after leaving a section: the depth shrinks by one, and on
    /// leaving the outermost one interrupts come on again if they were on
    /// when it was entered.
    pub open spec fn pop(self) -> CpuModel {
        CpuModel {
            sstatus: if self.depth == 1 && self.saved {
                self.sstatus | SSTATUS_SIE
            } else {
                self.sstatus
            },
            depth: (self.depth - 1) as nat,
            ..self
        }
    }
}

/// The interrupt state of one hart: its number, its copy of `sstatus`, how
/// many sections that disable interrupts it is in, and whether interrupts
/// were on when it entered the outermost one.
pub struct CpuState {
    id: CpuId,
    sstatus: u64,
    disable_depth: usize,
    saved_enable: bool,
}

impl View for CpuState {
    type V = CpuModel;

    closed spec fn view(&self) -> CpuModel {
        CpuModel {
            id: self.id,
            sstatus: self.sstatus,
            depth: self.disable_depth as nat,
            saved: self.saved_enable,
        }
    }
}

/// Setting and clearing the enable bit.
pub proof fn lemma_sie(x: u64)
    by (bit_vector)
    ensures
        (x | 0x2) & 0x2 != 0,
        (x & !0x2u64) & 0x2 == 0,
        x & 0x2 != 0 ==> (x & !0x2u64) | 0x2 == x,
        x & 0x2 == 0 ==> x & !0x2u64 == x,
        (x | 0x2) & !0x2u64 == x & !0x2u64,
        (x & !0x2u64) & !0x2u64 == x & !0x2u64,
{
}

impl CpuState {
    /// Hart 0 outside any section, with interrupts off.
    pub fn new() -> (c: Self)
        ensures
            c@ == (CpuModel { id: 0, sstatus: 0, depth: 0, saved: false }),
            c@.wf(),
    {
        Self { id: 0, sstatus: 0, disable_depth: 0, saved_enable: false }
    }

    /// The state of hart `id` whose `sstatus` holds `sstatus`, outside any
    /// section.
    pub fn boot(id: CpuId, sstatus: u64) -> (c: Self)
        ensures
            c@ == (CpuModel { id, sstatus, depth: 0, saved: false }),
            c@.wf(),
    {
        Self { id, sstatus, disable_depth: 0, saved_enable: false }
    }

    /// The number of the hart.
    pub fn cpuid(&self) -> (r: CpuId)
        ensures
            r == self@.id,
    {
        self.id
    }

    /// The value `sstatus` is to hold.
    pub fn sstatus(&self) -> (r: u64)
        ensures
            r == self@.sstatus,
    {
        self.sstatus
    }

    /// How many sections that disable interrupts the hart is in.
    pub fn depth(&self) -> (r: usize)
        ensures
            r == self@.depth,
    {
        self.disable_depth
    }

    /// Whether interrupts were on when the outermost section was entered.
    pub fn was_enabled(&self) -> (r: bool)
        ensures
            r == self@.saved,
    {
        self.saved_enable
    }

    /// Takes over the value that `sstatus` holds.
    pub fn load_sstatus(&mut self, sstatus: u64)
        ensures
            final(self)@ == (CpuModel { sstatus, ..old(self)@ }),
    {
        self.sstatus = sstatus;
    }

    /// Switches interrupts off. No other bit of `sstatus` changes.
    pub fn interrupt_off(&mut self)
        ensures
            final(self)@ == old(self)@.off(),
            !final(self)@.enabled(),
    {
        proof {
            lemma_sie(self.sstatus);
        }
        self.sstatus = self.sstatus & !SSTATUS_SIE;
    }

    /// Switches interrupts on. No other bit of `sstatus` changes.
    pub fn interrupt_on(&mut self)
        ensures
            final(self)@ == old(self)@.on(),
            final(self)@.enabled(),
    {
        proof {
            lemma_sie(self.sstatus);
        }
        self.sstatus = self.sstatus | SSTATUS_SIE;
    }

    /// Whether interrupts are on.
    pub fn is_interrupt_on(&self) -> (r: bool)
        ensures
            r == self@.enabled(),
    {
        self.sstatus & SSTATUS_SIE != 0
    }

    /// Enters a section that disables interrupts.
    pub fn interrupt_push(&mut self)
        requires
            old(self)@.depth < usize::MAX,
        ensures
            final(self)@ == old(self)@.push(),
            !final(self)@.enabled(),
            final(self)@.wf(),
    {
        let was_on = self.is_interrupt_on();
        self.interrupt_off();
        if self.disable_depth == 0 {
            self.saved_enable = was_on;
        }
        self.disable_depth += 1;
    }

    /// Leaves a section that disables interrupts.
    pub fn interrupt_pop(&mut self)
        requires
            old(self)@.depth > 0,
        ensures
            final(self)@ == old(self)@.pop(),
            old(self)@.wf() ==> final(self)@.wf(),
    {
        self.disable_depth -= 1;
        if self.disable_depth == 0 && self.saved_enable {
            self.interrupt_on();
        }
    }
}

/// Entering a section and leaving it again restores `sstatus`, and with it
/// the interrupt enable bit, and the depth.
pub proof fn lemma_push_pop(c: CpuModel)
    requires
        c.wf(),
    ensures
        c.push().pop().sstatus == c.sstatus,
        c.push().pop().enabled() == c.enabled(),
        c.push().pop().depth == c.depth,
        c.push().pop().id == c.id,
        c.push().wf(),
        c.push().pop().wf(),
{
    lemma_sie(c.sstatus);
}

/// The saved interrupt enable bit of a hart.
pub struct InterruptFlag {
    sstatus_mask: u64,
}

impl InterruptFlag {
    /// Interrupts were on when the state was saved.
    pub closed spec fn was_on(&self) -> bool {
        self.sstatus_mask == SSTATUS_SIE
    }

    /// The saved bit is the enable bit or nothing.
    pub closed spec fn wf(&self) -> bool {
        self.sstatus_mask == SSTATUS_SIE || self.sstatus_mask == 0
    }

    /// Giving the state back switches interrupts on.
    pub closed spec fn sets_on(&self) -> bool {
        self.sstatus_mask & SSTATUS_SIE != 0
    }
}

impl Backup for InterruptFlag {
    open spec fn off_state(cpu: CpuModel) -> CpuModel {
        cpu.off()
    }

    open spec fn saved_from(&self, cpu: CpuModel) -> bool {
        self.wf() && self.was_on() == cpu.enabled() && self.sets_on() == cpu.enabled()
    }

    open spec fn restored(&self, cpu: CpuModel) -> CpuModel {
        if self.sets_on() {
            cpu.on()
        } else {
            cpu
        }
    }

    proof fn lemma_round_trip(&self, cpu: CpuModel) {
        lemma_sie(cpu.sstatus);
    }

    fn save_and_off(cpu: &mut CpuState) -> (r: Self)
        ensures
            r.wf(),
            r.was_on() == old(cpu)@.enabled(),
            final(cpu)@ == old(cpu)@.off(),
    {
        proof {
            lemma_sie(old(cpu)@.sstatus);
        }
        proof {
            lemma_sie(cpu@.sstatus);
            lemma_enable_mask(cpu@.sstatus);
        }
        let sstatus_mask = cpu.sstatus() & SSTATUS_SIE;
        cpu.interrupt_off();
        Self { sstatus_mask }
    }

    fn restore(&self, cpu: &mut CpuState)
        ensures
            self.wf() && self.was_on() ==> final(cpu)@ == old(cpu)@.on(),
            self.wf() && !self.was_on() ==> final(cpu)@ == old(cpu)@,
    {
        proof {
            lemma_sie(old(cpu)@.sstatus);
        }
        if self.sstatus_mask & SSTATUS_SIE != 0 {
            proof {
                lemma_enable_mask(self.sstatus_mask);
            }
            cpu.interrupt_on();
        } else {
            proof {
                lemma_enable_mask(self.sstatus_mask);
            }
        }
    }
}

/// The enable bit, cut out of a word, is the enable bit or nothing.
proof fn lemma_enable_mask(x: u64)
    by (bit_vector)
    ensures
        x & 0x2 == 0x2 || x & 0x2 == 0,
        (x & 0x2 == 0x2) == (x & 0x2 != 0),
        0x2u64 & 0x2 != 0,
        0u64 & 0x2 == 0,
{
}


} // verus!
