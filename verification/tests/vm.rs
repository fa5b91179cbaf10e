use kernel::allocator::watermark::WaterMarkAllocator;
use kernel::arch::riscv64::paging::{VMManager as Paging, VMMode};
use kernel::arch::riscv64::task::TRAMPOLINE;
use kernel::arch::riscv64::vm::{Entry, VMManager};
use kernel::error::VMError;

fn fresh() -> (VMManager, WaterMarkAllocator, u64) {
    let mut alloc = WaterMarkAllocator::new(0x8020_0000, 0x8800_0000);
    let mut vm = VMManager::new();
    let root = vm.create_table(&mut alloc);
    vm.set_table("kernel".to_string(), root);
    (vm, alloc, root)
}

#[test]
fn map_then_walk_gives_the_frame() {
    let (mut vm, mut alloc, root) = fresh();
    assert_eq!(root, 0x8020_0000);
    assert_eq!(vm.walk("kernel", 0x4000_1000), Err(VMError::NotFound));
    assert_eq!(vm.map("kernel", 0x8100_0000, 0x4000_1000, true, false, true, false, &mut alloc), Ok(()));
    assert_eq!(vm.walk("kernel", 0x4000_1000), Ok(0x8100_0000));
    assert_eq!(vm.walk("kernel", 0x4000_1abc), Ok(0x8100_0abc));
    // two tables were made for the two levels below the root
    assert_eq!(alloc.current_position(), 0x8020_3000);
}

#[test]
fn map_refuses_misaligned_addresses() {
    let (mut vm, mut alloc, _) = fresh();
    let before = alloc.current_position();
    assert_eq!(vm.map("kernel", 0x8100_0001, 0x4000_1000, true, true, false, false, &mut alloc), Err(VMError::Misaligned));
    assert_eq!(vm.map("kernel", 0x8100_0000, 0x4000_1800, true, true, false, false, &mut alloc), Err(VMError::Misaligned));
    assert_eq!(alloc.current_position(), before);
    assert_eq!(vm.walk("kernel", 0x4000_1000), Err(VMError::NotFound));
}

#[test]
fn a_second_page_leaves_the_first_alone() {
    let (mut vm, mut alloc, _) = fresh();
    vm.map("kernel", 0x8100_0000, 0x4000_1000, true, true, false, false, &mut alloc).unwrap();
    let after_first = alloc.current_position();
    vm.map("kernel", 0x8200_0000, 0x4000_2000, true, false, false, true, &mut alloc).unwrap();
    // same tables: nothing more was taken from the heap
    assert_eq!(alloc.current_position(), after_first);
    assert_eq!(vm.walk("kernel", 0x4000_1000), Ok(0x8100_0000));
    assert_eq!(vm.walk("kernel", 0x4000_2000), Ok(0x8200_0000));
    // a page in another gigabyte takes two more tables
    vm.map("kernel", 0x8300_0000, 0x1_0000_0000, true, false, false, true, &mut alloc).unwrap();
    assert_eq!(alloc.current_position(), after_first + 0x2000);
    assert_eq!(vm.walk("kernel", 0x4000_1000), Ok(0x8100_0000));
    assert_eq!(vm.walk("kernel", 0x1_0000_0000), Ok(0x8300_0000));
}

#[test]
fn remapping_a_page_replaces_the_frame() {
    let (mut vm, mut alloc, _) = fresh();
    vm.map("kernel", 0x8100_0000, 0x4000_1000, true, true, false, false, &mut alloc).unwrap();
    vm.map("kernel", 0x8200_0000, 0x4000_1000, true, true, false, false, &mut alloc).unwrap();
    assert_eq!(vm.walk("kernel", 0x4000_1000), Ok(0x8200_0000));
}

#[test]
fn identity_fill_maps_every_block_to_itself() {
    let (mut vm, _alloc, root) = fresh();
    vm.identity_mapping(root, 2, 0);
    assert_eq!(vm.walk("kernel", 0), Ok(0));
    assert_eq!(vm.walk("kernel", 0x8010_0000), Ok(0x8010_0000));
    assert_eq!(vm.walk("kernel", 0x3f_ffff_f123), Ok(0x3f_ffff_f123));
    assert_eq!(vm.walk("kernel", 0x7f_c000_0000), Ok(0x7f_c000_0000));
}

#[test]
fn init_builds_the_kernel_space() {
    let mut alloc = WaterMarkAllocator::new(0x8020_0000, 0x8800_0000);
    let mut vm = VMManager::new();
    let satp = vm.init(&mut alloc, 0x8000_3000);
    assert_eq!(satp, (8u64 << 60) | 0x80200);
    assert!(vm.has_root("kernel"));
    assert_eq!(vm.get_table("kernel"), 0x8020_0000);
    assert_eq!(vm.make_satp("kernel"), satp);
    assert_eq!(vm.walk("kernel", TRAMPOLINE), Ok(0x8000_3000));
    assert_eq!(vm.walk("kernel", TRAMPOLINE + 0x10), Ok(0x8000_3010));
    // memory elsewhere still translates to itself
    assert_eq!(vm.walk("kernel", 0x8010_0000), Ok(0x8010_0000));
    assert_eq!(vm.walk("kernel", 0x3f_ffff_e000), Ok(0x3f_ffff_e000));
    assert_eq!(vm.walk("kernel", 0x3f_ffdf_f000), Ok(0x3f_ffdf_f000));
    assert_eq!(alloc.current_position(), 0x8020_3000);
}

#[test]
fn names_keep_address_spaces_apart() {
    let (mut vm, mut alloc, _) = fresh();
    let other = vm.create_table(&mut alloc);
    vm.set_table("init.1".to_string(), other);
    assert!(vm.has_root("init.1"));
    assert!(!vm.has_root("init.2"));
    assert!(vm.has_table(other));
    assert!(!vm.has_table(other + 0x1000));
    vm.map("init.1", 0x8100_0000, 0x1000, true, true, true, true, &mut alloc).unwrap();
    assert_eq!(vm.walk("init.1", 0x1000), Ok(0x8100_0000));
    assert_eq!(vm.walk("kernel", 0x1000), Err(VMError::NotFound));
}

#[test]
fn entry_flags() {
    let mut e = Entry::new();
    assert!(e.is_invalid());
    e.set_flags(true, true, false, false, true);
    assert!(e.is_valid() && e.is_readable() && !e.is_writable() && !e.is_executable() && e.is_user_accessible());
    assert!(e.is_leaf() && !e.is_next_ptr());
    assert_eq!(e.0, 0b10011);
    e.set_flags(false, false, true, true, false);
    assert_eq!(e.0, 0b11111);
}

#[test]
fn entry_page_number() {
    let mut e = Entry::new();
    e.as_next_ptr();
    assert_eq!(e.0, 1);
    assert!(e.is_valid() && e.is_next_ptr() && !e.is_leaf());
    e.set_ppn(0x8020_3000 >> 2);
    assert_eq!(e.0, 0x2008_0c01);
    assert_eq!(e.get_ppn(), 0x2008_0c00);
    assert_eq!(e.get_ppn() << 2, 0x8020_3000);
}

#[test]
fn satp_holds_mode_and_root() {
    assert_eq!(VMMode::Sv39.value(), 8);
    let p = Paging::new();
    assert_eq!(p.enable_paging(0x8020_0000, VMMode::Sv39), 0x8000_0000_0008_0200);
}
