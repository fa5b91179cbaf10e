//! The kernel lock: one lock for the whole kernel, taken with interrupts
//! off, with a channel on which a driver waits for an interrupt.
//!
//! The lock does not spin and does not wait. `lock` makes one attempt and
//! says whether it got the lock; `wait_intr` makes one step of the wait and
//! says whether it is over. The caller repeats the call.

use crate::arch::riscv64::riscv::{lemma_push_pop, lemma_sie, CpuModel, CpuState};
use crate::arch::CpuId;
use vstd::prelude::*;

verus! {

/// What the kernel lock is to the proofs: who holds it, whether an
/// interrupt was observed, and whether a driver is waiting for one.
pub struct LockModel {
    pub holder: Option<CpuId>,
    pub intr: bool,
    pub waiting: bool,
}

impl LockModel {
    /// The lock and the hart after the hart tried to take the lock, and
    /// whether it holds the lock now. A hart that holds the lock already
    /// changes nothing. A free lock is taken, and the hart enters a section
    /// that disables interrupts. A lock held by another hart stays as it is.
    pub open spec fn lock(self, cpu: CpuModel) -> (LockModel, CpuModel, bool) {
        if self.holder == Some(cpu.id) {
            (self, cpu, true)
        } else if self.holder is None {
            (LockModel { holder: Some(cpu.id), ..self }, cpu.push(), true)
        } else {
            (self, cpu, false)
        }
    }

    /// The lock and the hart after the hart released the lock. Only the
    /// holder releases it, and leaves its section; any other hart changes
    /// nothing.
    pub open spec fn unlock(self, cpu: CpuModel) -> (LockModel, CpuModel) {
        if self.holder == Some(cpu.id) {
            (LockModel { holder: None, ..self }, cpu.pop())
        } else {
            (self, cpu)
        }
    }

    /// The lock and the hart after one step of waiting for an interrupt,
    /// and whether the wait is over. The first step clears the flag and
    /// leaves the section, so that interrupts come on. Later steps change
    /// nothing until the flag is set; then the hart enters the section
    /// again and the flag is cleared.
    pub open spec fn wait(self, cpu: CpuModel) -> (LockModel, CpuModel, bool) {
        if !self.waiting {
            (LockModel { intr: false, waiting: true, ..self }, cpu.pop(), false)
        } else if !self.intr {
            (self, cpu, false)
        } else {
            (LockModel { intr: false, waiting: false, ..self }, cpu.push(), true)
        }
    }
}

/// The kernel lock.
pub struct KernelLock {
    locked: bool,
    cpu_id: Option<CpuId>,
    intr: bool,
    waiting: bool,
}

impl View for KernelLock {
    type V = LockModel;

    closed spec fn view(&self) -> LockModel {
        LockModel { holder: self.cpu_id, intr: self.intr, waiting: self.waiting }
    }
}

impl KernelLock {
    /// The lock is marked taken exactly when a hart holds it.
    pub closed spec fn wf(&self) -> bool {
        self.locked == self.cpu_id.is_some()
    }

    /// A free lock.
    pub fn new() -> (l: Self)
        ensures
            l@ == (LockModel { holder: None, intr: false, waiting: false }),
            l.wf(),
    {
        Self { locked: false, cpu_id: None, intr: false, waiting: false }
    }

    /// The hart that holds the lock.
    pub fn holder(&self) -> (r: Option<CpuId>)
        ensures
            r == self@.holder,
    {
        self.cpu_id
    }

    /// Whether a wait for an interrupt is under way.
    pub fn is_waiting(&self) -> (r: bool)
        ensures
            r == self@.waiting,
    {
        self.waiting
    }

    /// One attempt of `cpu` to take the lock. True where `cpu` holds the
    /// lock afterwards.
    pub fn lock(&mut self, cpu: &mut CpuState) -> (acquired: bool)
        requires
            old(self).wf(),
            old(cpu)@.depth < usize::MAX,
        ensures
            (final(self)@, final(cpu)@, acquired) == old(self)@.lock(old(cpu)@),
            final(self).wf(),
            acquired <==> final(self)@.holder == Some(old(cpu)@.id),
            old(cpu)@.wf() ==> final(cpu)@.wf(),
    {
        if let Some(cpu_id) = self.cpu_id {
            if cpu_id == cpu.cpuid() {
                return true;
            }
        }
        if self.locked {
            return false;
        }
        self.locked = true;
        cpu.interrupt_push();
        self.cpu_id = Some(cpu.cpuid());
        true
    }

    /// Releases the lock if `cpu` holds it. A release by any other hart is
    /// ignored.
    pub fn unlock(&mut self, cpu: &mut CpuState)
        requires
            old(self).wf(),
            old(self)@.holder == Some(old(cpu)@.id) ==> old(cpu)@.depth > 0,
        ensures
            (final(self)@, final(cpu)@) == old(self)@.unlock(old(cpu)@),
            final(self).wf(),
            old(cpu)@.wf() ==> final(cpu)@.wf(),
    {
        match self.cpu_id {
            Some(saved_cpu_id) => {
                if cpu.cpuid() != saved_cpu_id {
                    return ;
                }
            },
            None => {
                return ;
            },
        }
        self.cpu_id = None;
        self.locked = false;
        cpu.interrupt_pop();
    }

    /// Records that an interrupt was handled.
    pub fn complete_intr(&mut self)
        ensures
            final(self)@ == (LockModel { intr: true, ..old(self)@ }),
            old(self).wf() ==> final(self).wf(),
    {
        self.intr = true;
    }

    /// One step of waiting for an interrupt. True where the wait is over.
    /// The wait begins in a section of depth one that was entered with
    /// interrupts on, so that they are on while the hart waits.
    pub fn wait_intr(&mut self, cpu: &mut CpuState) -> (done: bool)
        requires
            !old(self)@.waiting ==> old(cpu)@.depth == 1 && old(cpu)@.saved,
            old(cpu)@.depth < usize::MAX,
        ensures
            (final(self)@, final(cpu)@, done) == old(self)@.wait(old(cpu)@),
            old(self).wf() ==> final(self).wf(),
            !old(self)@.waiting ==> final(cpu)@.enabled(),
            done ==> !final(cpu)@.enabled() && !final(self)@.intr,
    {
        if !self.waiting {
            self.intr = false;
            cpu.interrupt_pop();
            self.waiting = true;
            proof {
                lemma_sie(old(cpu)@.sstatus);
            }
            false
        } else if !self.intr {
            false
        } else {
            cpu.interrupt_push();
            self.intr = false;
            self.waiting = false;
            true
        }
    }
}

/// At most one hart holds the lock: while one hart holds it, an attempt by
/// any other hart fails and changes nothing.
pub proof fn lemma_exclusive(l: LockModel, owner: CpuModel, other: CpuModel)
    requires
        l.holder == Some(owner.id),
        other.id != owner.id,
    ensures
        l.lock(other) == (l, other, false),
        l.unlock(other) == (l, other),
{
}

/// Taking the free lock and releasing it leaves the hart's `sstatus`, and
/// with it the interrupt enable bit, exactly as it was, and the lock free.
pub proof fn lemma_lock_unlock(l: LockModel, cpu: CpuModel)
    requires
        l.holder is None,
        cpu.wf(),
    ensures
        l.lock(cpu).2,
        l.lock(cpu).0.holder == Some(cpu.id),
        !l.lock(cpu).1.enabled(),
        l.lock(cpu).0.unlock(l.lock(cpu).1).0 == l,
        l.lock(cpu).0.unlock(l.lock(cpu).1).1.sstatus == cpu.sstatus,
        l.lock(cpu).0.unlock(l.lock(cpu).1).1.enabled() == cpu.enabled(),
        l.lock(cpu).0.unlock(l.lock(cpu).1).1.depth == cpu.depth,
{
    lemma_push_pop(cpu);
    lemma_sie(cpu.sstatus);
}

/// The lock is reentrant: a second `lock` by the holder changes nothing,
/// and one `unlock` then releases the lock fully and restores the hart's
/// interrupt enable bit to what it was before the first `lock`.
pub proof fn lemma_reentrant(l: LockModel, cpu: CpuModel)
    requires
        l.holder is None,
        cpu.wf(),
    ensures
        ({
            let (l1, c1, _a1) = l.lock(cpu);
            let (l2, c2, a2) = l1.lock(c1);
            let (l3, c3) = l2.unlock(c2);
            &&& a2
            &&& l2 == l1
            &&& c2 == c1
            &&& l3.holder is None
            &&& c3.sstatus == cpu.sstatus
            &&& c3.enabled() == cpu.enabled()
            &&& c3.depth == cpu.depth
        }),
{
    lemma_push_pop(cpu);
    lemma_sie(cpu.sstatus);
}

/// A value under a lock that is taken with interrupts off. Like the kernel
/// lock, it does not spin: `lock` makes one attempt.
pub struct Mutex<T> {
    locked: bool,
    data: T,
}

impl<T> Mutex<T> {
    /// The lock is taken.
    pub closed spec fn is_locked(&self) -> bool {
        self.locked
    }

    /// The value under the lock.
    pub closed spec fn value(&self) -> T {
        self.data
    }

    /// A free lock over `value`.
    pub fn new(value: T) -> (m: Self)
        ensures
            !m.is_locked(),
            m.value() == value,
    {
        Self { locked: false, data: value }
    }

    /// One attempt to take the lock. True where the lock was free: it is
    /// taken now, and the hart's interrupts are off.
    pub fn lock(&mut self, cpu: &mut CpuState) -> (acquired: bool)
        ensures
            acquired == !old(self).is_locked(),
            final(self).is_locked(),
            final(self).value() == old(self).value(),
            acquired ==> final(cpu)@ == old(cpu)@.off(),
            !acquired ==> final(cpu)@ == old(cpu)@,
    {
        if self.locked {
            false
        } else {
            self.locked = true;
            cpu.interrupt_off();
            true
        }
    }

    /// Releases the lock and switches the hart's interrupts on.
    pub fn unlock(&mut self, cpu: &mut CpuState)
        ensures
            !final(self).is_locked(),
            final(self).value() == old(self).value(),
            final(cpu)@ == old(cpu)@.on(),
    {
        self.locked = false;
        cpu.interrupt_on();
    }

    /// Releases the lock, whoever holds it, and leaves interrupts alone.
    pub fn force_unlock(&mut self)
        ensures
            !final(self).is_locked(),
            final(self).value() == old(self).value(),
    {
        self.locked = false;
    }

    /// The value under the lock.
    pub fn get(&self) -> (r: &T)
        requires
            self.is_locked(),
        ensures
            *r == self.value(),
    {
        &self.data
    }

    /// Replaces the value under the lock.
    pub fn set(&mut self, value: T)
        requires
            old(self).is_locked(),
        ensures
            final(self).is_locked(),
            final(self).value() == value,
    {
        self.data = value;
    }
}

/// A value under a lock that is never taken: for a single hart that runs
/// with interrupts off.
pub struct DummyMutex<T> {
    data: T,
}

impl<T> DummyMutex<T> {
    /// The value under the lock.
    pub closed spec fn value(&self) -> T {
        self.data
    }

    /// A lock over `value`.
    pub fn new(value: T) -> (m: Self)
        ensures
            m.value() == value,
    {
        Self { data: value }
    }

    /// The value under the lock.
    pub fn lock(&self) -> (r: &T)
        ensures
            *r == self.value(),
    {
        &self.data
    }

    /// Replaces the value under the lock.
    pub fn set(&mut self, value: T)
        ensures
            final(self).value() == value,
    {
        self.data = value;
    }
}

} // verus!
