use kernel::allocator::watermark::WaterMarkAllocator;
use kernel::arch::aarch64::arm::CpuState as Core;
use kernel::arch::aarch64::vm::{Entry as Descriptor, PageTable as Table, VMManager as Tables, MAIR_EL1, PTE_DEVICE, PTE_NORMAL_CACHEABLE, SCTLR_EL1, TCR_EL1};
use kernel::error::VMError;

fn fresh_tables() -> (Tables, WaterMarkAllocator, u64) {
    let mut alloc = WaterMarkAllocator::new(0x10_0000, 0x800_0000);
    let mut vm = Tables::new();
    let root = vm.create_table(&mut alloc);
    vm.set_table("kernel".to_string(), root);
    (vm, alloc, root)
}

#[test]
fn descriptor_types() {
    let mut e = Descriptor::default();
    assert!(e.is_invalid() && !e.is_block());
    e.as_block();
    assert_eq!(e.0, 1);
    assert!(e.is_valid() && e.is_block());
    e.as_table();
    assert_eq!(e.0, 3);
    assert!(e.is_valid() && !e.is_block());
    e.as_page();
    assert_eq!(e.0, 3);
}

#[test]
fn descriptor_address_and_attributes() {
    let mut e = Descriptor::default();
    e.as_page();
    e.set_oa(0x3f20_1000);
    assert_eq!(e.get_oa(), 0x3f20_1000);
    e.set_oa(0x8_0000);
    assert_eq!(e.get_oa(), 0x8_0000);
    e.set_attr(PTE_DEVICE);
    assert_eq!(e.0 & 0x1c, 0x8);
    e.set_attr(PTE_NORMAL_CACHEABLE);
    assert_eq!(e.0 & 0x1c, 0x4);
    e.set_af();
    assert_eq!(e.0, 0x8_0000 | 0x400 | 0x4 | 0x3);
}

#[test]
fn descriptor_permissions() {
    let mut e = Descriptor::default();
    e.set_flags(true, true, true, true);
    assert_eq!(e.0, 0x40);
    let mut e = Descriptor::default();
    e.set_flags(true, true, true, false);
    assert_eq!(e.0, 0);
    let mut e = Descriptor::default();
    e.set_flags(true, false, false, true);
    assert_eq!(e.0, 0xc0 | (1 << 54));
    let mut e = Descriptor::default();
    e.set_flags(true, false, false, false);
    assert_eq!(e.0, 0x80 | (1 << 53));
}

#[test]
fn table_identity_filling() {
    let mut t = Table::new(0x20_0000);
    assert_eq!(t.address(), 0x20_0000);
    assert_eq!(t.size(), 512);
    assert_eq!(t.get_entry(7).0, 0);
    t.identity_mapping(1, 0x4000_0000);
    assert_eq!(t.get_entry(0).0, 0x4000_0405);
    assert_eq!(t.get_entry(3).0, 0x4060_0405);
    assert_eq!(t.get_entry(3).get_oa(), 0x4060_0000);
    assert!(t.get_entry(511).is_block());
    t.update_entry(3, Descriptor(0));
    assert!(t.get_entry(3).is_invalid());
    assert_eq!(t.get_entry(2).0, 0x4040_0405);
}

#[test]
fn map_then_walk_gives_the_frame_on_arm() {
    let (mut vm, mut alloc, _) = fresh_tables();
    assert_eq!(vm.walk("kernel", 0x4000_1000), Err(VMError::NotFound));
    assert_eq!(vm.map("kernel", 0x100_0000, 0x4000_1000, true, true, false, true, &mut alloc), Ok(()));
    assert_eq!(vm.walk("kernel", 0x4000_1000), Ok(0x100_0000));
    assert_eq!(vm.walk("kernel", 0x4000_1234), Ok(0x100_0234));
    assert_eq!(vm.walk("kernel", 0x4000_2000), Ok(0x2000));
    assert_eq!(vm.map("kernel", 0x100_0800, 0x4000_1000, true, true, false, true, &mut alloc), Err(VMError::Misaligned));
}

#[test]
fn attribute_follows_the_physical_address() {
    let (vm, _, _) = fresh_tables();
    assert_eq!(vm.get_attr(0x3eff_ffff), PTE_NORMAL_CACHEABLE);
    assert_eq!(vm.get_attr(0x3f00_0000), PTE_DEVICE);
    assert_eq!(vm.get_attr(0x3fff_ffff), PTE_DEVICE);
    assert_eq!(vm.get_attr(0x4000_0000), PTE_NORMAL_CACHEABLE);
}

#[test]
fn init_maps_the_peripherals_as_device_memory() {
    let mut alloc = WaterMarkAllocator::new(0x10_0000, 0x800_0000);
    let mut vm = Tables::new();
    let regs = vm.init(&mut alloc);
    assert_eq!(regs.ttbr0_el1, 0x10_0000);
    assert_eq!(regs.tcr_el1, TCR_EL1);
    assert_eq!(regs.tcr_el1, 0x99_3519);
    assert_eq!(regs.mair_el1, MAIR_EL1);
    assert_eq!(regs.sctlr_el1, SCTLR_EL1);
    assert_eq!(vm.get_table("kernel"), 0x10_0000);
    assert_eq!(vm.walk("kernel", 0x3f20_1000), Ok(0x3f20_1000));
    assert_eq!(vm.walk("kernel", 0x3fff_f004), Ok(0x3fff_f004));
    assert_eq!(vm.walk("kernel", 0x8_0000), Ok(0x8_0000));
    assert_eq!(vm.walk("kernel", 0x4008_0000), Ok(0x4008_0000));
    // the root, one table for the gigabyte, eight for the window
    assert_eq!(alloc.current_position(), 0x10_0000 + 10 * 0x1000);
}

#[test]
fn core_number_is_the_low_bits() {
    let c = Core::new();
    assert_eq!(c.cpuid(0x8000_0003), 3);
    assert_eq!(c.cpuid(0x8000_0100), 0);
}
