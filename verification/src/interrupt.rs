//! Saving the interrupt state of a hart and switching interrupts off, to
//! restore it later.

use crate::arch::riscv64::riscv::{CpuModel, CpuState};
use vstd::prelude::*;

verus! {

/// A saved interrupt state.
pub trait Backup: Sized {
    /// The state of a hart after its interrupt state was saved: what
    /// switching interrupts off means on this machine.
    spec fn off_state(cpu: CpuModel) -> CpuModel;

    /// This is what saving the interrupt state of a hart in state `cpu`
    /// gives.
    spec fn saved_from(&self, cpu: CpuModel) -> bool;

    /// The state of a hart in state `cpu` after this saved state was given
    /// back to it.
    spec fn restored(&self, cpu: CpuModel) -> CpuModel;

    /// Saves the interrupt state of the hart and switches its interrupts
    /// off. Nothing but the interrupt enable bit changes.
    fn save_and_off(cpu: &mut CpuState) -> (saved: Self)
        ensures
            final(cpu)@ == Self::off_state(old(cpu)@),
            saved.saved_from(old(cpu)@),
            old(cpu)@.same_but_enable(final(cpu)@),
    ;

    /// Gives the hart the interrupt state that was saved. Nothing but the
    /// interrupt enable bit changes.
    fn restore(&self, cpu: &mut CpuState)
        ensures
            final(cpu)@ == self.restored(old(cpu)@),
            old(cpu)@.same_but_enable(final(cpu)@),
    ;

    /// Saving the interrupt state of a hart and giving it back at once
    /// leaves the hart as it was.
    proof fn lemma_round_trip(&self, cpu: CpuModel)
        requires
            self.saved_from(cpu),
        ensures
            self.restored(Self::off_state(cpu)) == cpu,
    ;
}

/// The saved state of a machine that has no interrupts to switch.
pub struct DummyBackup;

impl DummyBackup {
    pub fn new() -> Self {
        Self
    }
}

impl Backup for DummyBackup {
    open spec fn off_state(cpu: CpuModel) -> CpuModel {
        cpu
    }

    open spec fn saved_from(&self, cpu: CpuModel) -> bool {
        true
    }

    open spec fn restored(&self, cpu: CpuModel) -> CpuModel {
        cpu
    }

    fn save_and_off(cpu: &mut CpuState) -> (r: Self)
        ensures
            final(cpu)@ == old(cpu)@,
    {
        Self
    }

    fn restore(&self, cpu: &mut CpuState)
        ensures
            final(cpu)@ == old(cpu)@,
    {
    }

    proof fn lemma_round_trip(&self, cpu: CpuModel) {
    }
}

/// A saved interrupt state, whatever the machine.
pub struct InterruptFlag<T: Backup> {
    inner: T,
}

impl<T: Backup> InterruptFlag<T> {
    /// The state that is kept.
    pub closed spec fn saved(&self) -> T {
        self.inner
    }

    /// Saves the interrupt state of the hart and switches its interrupts
    /// off, as the machine's saved state does it: the hart is left in the
    /// machine's off state, and what is kept was saved from the state the
    /// hart was in.
    pub fn save_and_off(cpu: &mut CpuState) -> (r: Self)
        ensures
            final(cpu)@ == T::off_state(old(cpu)@),
            r.saved().saved_from(old(cpu)@),
            old(cpu)@.same_but_enable(final(cpu)@),
    {
        Self { inner: T::save_and_off(cpu) }
    }

    /// Gives the hart the interrupt state that was saved, as the machine's
    /// saved state does it.
    pub fn restore(&self, cpu: &mut CpuState)
        ensures
            final(cpu)@ == self.saved().restored(old(cpu)@),
            old(cpu)@.same_but_enable(final(cpu)@),
    {
        self.inner.restore(cpu)
    }

    /// A state that was saved from a hart, given back to the hart right
    /// after it was saved, leaves the hart as it was before.
    pub proof fn lemma_save_restore(&self, cpu: CpuModel)
        requires
            self.saved().saved_from(cpu),
        ensures
            self.saved().restored(T::off_state(cpu)) == cpu,
    {
        self.inner.lemma_round_trip(cpu);
    }
}

} // verus!
