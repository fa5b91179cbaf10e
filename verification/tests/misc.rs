use kernel::arch::riscv64::csr::{Mie, Mstatus, Sie, Sstatus};
use kernel::arch::riscv64::plic::{MmioWrite, PLICManager, PlicIRQ};
use kernel::arch::riscv64::trap::{dispatch, kernel_trap, TrapCause};
use kernel::arch::{is_page_aligned, PAGE_SIZE};
use kernel::error::{TaskError, VMError};
use kernel::sync::lazy::{Lazy, OnceCell};
use kernel::uefi::{pages_for, round_up, FrameBuffer, FrameBufferFormat};

#[test]
fn csr_fields() {
    assert_eq!(Mstatus::MPP.mask(), 0b11 << 11);
    assert_eq!(Mstatus::MPP.index(), 11);
    assert_eq!(Mstatus::FS.mask(), 0b11 << 13);
    assert_eq!(Mstatus::MIE.index(), 3);
    assert_eq!(Sstatus::SIE.mask(), 2);
    assert_eq!(Sstatus::SPIE.index(), 5);
    assert_eq!(Sstatus::SPP.mask(), 0x100);
    assert_eq!(Mie::MTIE.mask(), 1 << 7);
    assert_eq!(Mie::MTIE.index(), 7);
    assert_eq!(Sie::SEIE.mask(), 1 << 9);
    assert_eq!(Sie::STIE.index(), 5);
    assert_eq!(Sie::SSIE.mask(), 2);
}

#[test]
fn trap_causes() {
    assert!(kernel_trap(12) == TrapCause::PageFault);
    assert!(kernel_trap(13) == TrapCause::PageFault);
    assert!(kernel_trap(15) == TrapCause::PageFault);
    assert!(kernel_trap(2) == TrapCause::Exception);
    assert!(kernel_trap(0x8000_0000_0000_0009) == TrapCause::ExternalInterrupt);
    assert!(kernel_trap(0x8000_0000_0000_0005) == TrapCause::OtherInterrupt);
    assert!(kernel_trap(9) == TrapCause::Exception);
}

#[test]
fn interrupts_find_their_driver() {
    assert!(dispatch(10) == Some(PlicIRQ::Uart0));
    assert!(dispatch(1) == Some(PlicIRQ::VirtIO0));
    assert!(dispatch(0) == None);
    assert!(dispatch(11) == None);
    assert_eq!(PlicIRQ::Uart0.number(), 10);
}

#[test]
fn plic_registers() {
    let mut plic = PLICManager::new(0xc00_0000);
    assert!(PLICManager::is_hart_in_range(1));
    assert!(!PLICManager::is_hart_in_range(10_000));
    let writes = plic.init_irq(PlicIRQ::Uart0, 1);
    assert!(writes == vec![
        MmioWrite { addr: 0xc00_0028, value: 1 },
        MmioWrite { addr: 0xc00_2180, value: 1 << 10 },
        MmioWrite { addr: 0xc20_3000, value: 0 },
    ]);
    assert_eq!(plic.claim_address(1), 0xc20_3004);
    assert_eq!(plic.read_claim(0), 0xc20_1004);
    assert!(plic.send_complete(10, 0) == MmioWrite { addr: 0xc20_1004, value: 10 });
}

#[test]
fn page_alignment() {
    assert_eq!(PAGE_SIZE, 4096);
    assert!(is_page_aligned(0));
    assert!(is_page_aligned(0x8000_1000));
    assert!(!is_page_aligned(0x8000_1008));
}

#[test]
fn error_kinds() {
    assert!(TaskError::from_vm(VMError::NotFound) == TaskError::MapError(VMError::NotFound));
    assert!(TaskError::TaskNotFound(3) != TaskError::TaskNotFound(4));
}

#[test]
fn once_cell_is_filled_once() {
    let mut cell: OnceCell<u32> = OnceCell::new();
    assert!(cell.get().is_none());
    assert!(cell.get_mut().is_none());
    assert!(cell.get().is_none());
    assert_eq!(*cell.get_or_init(|| 5), 5);
    assert_eq!(*cell.get_or_init(|| 6), 5);
    assert_eq!(cell.set(7), Err(7));
    assert_eq!(cell.get(), Some(&5));
    if let Some(v) = cell.get_mut() {
        *v = 8;
    }
    assert_eq!(cell.get(), Some(&8));
    let mut other: OnceCell<u32> = OnceCell::new();
    assert_eq!(other.get_or_try_init(|| Err::<u32, u8>(1)), Err(1));
    assert!(!other.is_set());
    assert_eq!(other.get_or_try_init(|| Ok::<u32, u8>(2)), Ok(&2));
    assert_eq!(other.get_or_try_init(|| Err::<u32, u8>(3)), Ok(&2));
    let mut third: OnceCell<u32> = OnceCell::new();
    assert_eq!(third.set(1), Ok(()));
    assert_eq!(third.get(), Some(&1));
}

#[test]
fn lazy_value_is_made_on_first_use() {
    let mut lazy = Lazy::new(|| vec![1, 2, 3]);
    assert_eq!(lazy.force().len(), 3);
    assert_eq!(lazy.force()[1], 2);
}

#[test]
fn rounding_up() {
    assert_eq!(round_up(0, 4096), 0);
    assert_eq!(round_up(1, 4096), 4096);
    assert_eq!(round_up(4096, 4096), 4096);
    assert_eq!(round_up(4097, 4096), 8192);
    assert_eq!(round_up(10, 3), 12);
    assert_eq!(pages_for(0x2001), 3);
    let fb = FrameBuffer { ptr: 0x4000_0000, width: 640, height: 480, stride: 1024, format: FrameBufferFormat::BGR };
    assert_eq!(fb.pixel_index(5, 2), 2053);
}
