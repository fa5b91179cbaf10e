use kernel::arch::riscv64::riscv::{CpuState, InterruptFlag as SavedEnable};
use kernel::interrupt::{Backup, DummyBackup, InterruptFlag};
use kernel::sync::mutex::{DummyMutex, KernelLock, Mutex};

#[test]
fn interrupt_switch() {
    let mut cpu = CpuState::boot(3, 0x6020);
    assert_eq!(cpu.cpuid(), 3);
    assert!(!cpu.is_interrupt_on());
    cpu.interrupt_on();
    assert!(cpu.is_interrupt_on());
    assert_eq!(cpu.sstatus(), 0x6022);
    cpu.interrupt_off();
    assert!(!cpu.is_interrupt_on());
    assert_eq!(cpu.sstatus(), 0x6020);
    let fresh = CpuState::new();
    assert_eq!(fresh.cpuid(), 0);
    assert_eq!(fresh.sstatus(), 0);
}

#[test]
fn nested_sections_restore_only_at_the_outermost() {
    let mut cpu = CpuState::boot(0, 0x2);
    cpu.interrupt_push();
    assert!(!cpu.is_interrupt_on());
    assert_eq!(cpu.depth(), 1);
    cpu.interrupt_push();
    assert_eq!(cpu.depth(), 2);
    cpu.interrupt_pop();
    assert!(!cpu.is_interrupt_on());
    cpu.interrupt_pop();
    assert!(cpu.is_interrupt_on());
    assert_eq!(cpu.depth(), 0);
}

#[test]
fn section_entered_with_interrupts_off_leaves_them_off() {
    let mut cpu = CpuState::boot(0, 0);
    cpu.interrupt_push();
    cpu.interrupt_pop();
    assert!(!cpu.is_interrupt_on());
}

#[test]
fn lock_then_unlock_restores_interrupts() {
    let mut lock = KernelLock::new();
    let mut cpu = CpuState::boot(0, 0x22);
    assert!(lock.lock(&mut cpu));
    assert_eq!(lock.holder(), Some(0));
    assert!(!cpu.is_interrupt_on());
    lock.unlock(&mut cpu);
    assert_eq!(lock.holder(), None);
    assert!(cpu.is_interrupt_on());
    assert_eq!(cpu.sstatus(), 0x22);
}

#[test]
fn lock_is_reentrant_and_one_unlock_releases() {
    let mut lock = KernelLock::new();
    let mut cpu = CpuState::boot(0, 0x2);
    assert!(lock.lock(&mut cpu));
    assert!(lock.lock(&mut cpu));
    assert_eq!(cpu.depth(), 1);
    assert!(!cpu.is_interrupt_on());
    lock.unlock(&mut cpu);
    assert_eq!(lock.holder(), None);
    assert!(cpu.is_interrupt_on());
    // a second unlock comes from a hart that holds nothing: ignored
    lock.unlock(&mut cpu);
    assert_eq!(lock.holder(), None);
    assert!(cpu.is_interrupt_on());
    assert_eq!(cpu.depth(), 0);
}

#[test]
fn lock_is_held_by_one_hart_at_a_time() {
    let mut lock = KernelLock::new();
    let mut hart0 = CpuState::boot(0, 0x2);
    let mut hart1 = CpuState::boot(1, 0x2);
    assert!(lock.lock(&mut hart0));
    assert!(!lock.lock(&mut hart1));
    assert!(hart1.is_interrupt_on());
    assert_eq!(lock.holder(), Some(0));
    lock.unlock(&mut hart1);
    assert_eq!(lock.holder(), Some(0));
    lock.unlock(&mut hart0);
    assert!(lock.lock(&mut hart1));
    assert_eq!(lock.holder(), Some(1));
    assert!(!hart1.is_interrupt_on());
}

#[test]
fn waiting_for_an_interrupt() {
    let mut lock = KernelLock::new();
    let mut cpu = CpuState::boot(0, 0x2);
    assert!(lock.lock(&mut cpu));
    assert!(!lock.wait_intr(&mut cpu));
    assert!(cpu.is_interrupt_on());
    assert!(!lock.wait_intr(&mut cpu));
    lock.complete_intr();
    lock.complete_intr();
    assert!(lock.wait_intr(&mut cpu));
    assert!(!cpu.is_interrupt_on());
    assert_eq!(cpu.depth(), 1);
    assert_eq!(lock.holder(), Some(0));
    // an interrupt from before the wait does not end the next wait
    lock.complete_intr();
    assert!(!lock.wait_intr(&mut cpu));
    assert!(!lock.wait_intr(&mut cpu));
}

#[test]
fn mutex_takes_interrupts_off() {
    let mut m = Mutex::new(5u32);
    let mut cpu = CpuState::boot(0, 0x2);
    assert!(m.lock(&mut cpu));
    assert!(!cpu.is_interrupt_on());
    assert_eq!(*m.get(), 5);
    m.set(6);
    assert!(!m.lock(&mut cpu));
    m.unlock(&mut cpu);
    assert!(cpu.is_interrupt_on());
    assert!(m.lock(&mut cpu));
    assert_eq!(*m.get(), 6);
    m.force_unlock();
    assert!(!cpu.is_interrupt_on());
    assert!(m.lock(&mut cpu));
}

#[test]
fn dummy_mutex_gives_the_value() {
    let mut m = DummyMutex::new(7u8);
    assert_eq!(*m.lock(), 7);
    m.set(9);
    assert_eq!(*m.lock(), 9);
}

#[test]
fn saved_enable_bit() {
    let mut cpu = CpuState::boot(0, 0x22);
    let saved = SavedEnable::save_and_off(&mut cpu);
    assert_eq!(cpu.sstatus(), 0x20);
    saved.restore(&mut cpu);
    assert_eq!(cpu.sstatus(), 0x22);
    let mut off = CpuState::boot(0, 0x20);
    let saved = SavedEnable::save_and_off(&mut off);
    saved.restore(&mut off);
    assert_eq!(off.sstatus(), 0x20);
    let flag = InterruptFlag::<SavedEnable>::save_and_off(&mut cpu);
    assert!(!cpu.is_interrupt_on());
    flag.restore(&mut cpu);
    assert!(cpu.is_interrupt_on());
    let _ = DummyBackup::new();
    let dummy = InterruptFlag::<DummyBackup>::save_and_off(&mut cpu);
    assert!(cpu.is_interrupt_on());
    dummy.restore(&mut cpu);
    assert!(cpu.is_interrupt_on());
}
