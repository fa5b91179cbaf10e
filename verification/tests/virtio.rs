use kernel::allocator::watermark::WaterMarkAllocator;
use kernel::device::common::virtio::block::{negotiate_features, BlockOpType, VirtIOBlock};
use kernel::device::common::virtio::header::{Register, RegisterWrite, VirtIODeviceStatus, VirtIORegister};
use kernel::device::common::virtio::queue::{VirtQueueDescFlag, VirtQueueUsed, VirtQueueUsedElem};

fn device() -> VirtIORegister {
    VirtIORegister {
        magic_value: 0x74726976,
        version: 1,
        device_id: 2,
        vendor_id: 0x554d4551,
        host_features: 0x3900_1ca4,
        queue_num_max: 1024,
        queue_pfn: 0,
        interrupt_status: 0,
        status: 0,
    }
}

fn ready() -> (VirtIOBlock, WaterMarkAllocator) {
    let mut alloc = WaterMarkAllocator::new(0x8400_0000, 0x8500_0000);
    let mut blk = VirtIOBlock::new();
    blk.init(0x1000_1000, &device(), 2048, &mut alloc);
    (blk, alloc)
}

fn used(idx: u16, ids: [u32; 8]) -> VirtQueueUsed {
    let mut ring = [VirtQueueUsedElem { id: 0, len: 0 }; 8];
    for i in 0..8 {
        ring[i].id = ids[i];
    }
    VirtQueueUsed { flags: 0, idx, ring }
}

#[test]
fn identification() {
    assert!(device().is_block_device());
    let mut other = device();
    other.device_id = 1;
    assert!(!other.is_block_device());
    let mut legacy = device();
    legacy.version = 2;
    assert!(!legacy.is_block_device());
}

#[test]
fn unsupported_features_are_cleared() {
    assert_eq!(negotiate_features(0xffff_ffff), 0xc7ff_e75f);
    assert_eq!(negotiate_features(0x3900_1ca4), 0x0100_0404);
    assert_eq!(negotiate_features(0), 0);
}

#[test]
fn handshake_in_order() {
    let mut alloc = WaterMarkAllocator::new(0x8400_0800, 0x8500_0000);
    let mut blk = VirtIOBlock::new();
    assert_eq!(blk.free_count(), 0);
    let writes = blk.init(0x1000_1000, &device(), 2048, &mut alloc);
    let expected = [
        (Register::Status, 1),
        (Register::Status, 3),
        (Register::GuestFeatures, 0x0100_0404),
        (Register::Status, 11),
        (Register::Status, 15),
        (Register::GuestPageSize, 4096),
        (Register::QueueSel, 0),
        (Register::QueueNum, 8),
        (Register::QueuePfn, 0x84001),
    ];
    assert_eq!(writes.len(), expected.len());
    for (w, (register, value)) in writes.iter().zip(expected.iter()) {
        assert!(w.register == *register);
        assert_eq!(w.value, *value);
    }
    assert_eq!(alloc.current_position(), 0x8400_3000);
    assert_eq!(blk.size(), 2048);
    assert_eq!(blk.free_count(), 8);
    assert_eq!(Register::Status.offset(), 0x70);
    assert_eq!(Register::QueueNotify.offset(), 0x50);
    assert_eq!(VirtIODeviceStatus::FEATURES_OK.bits(), 8);
    assert_eq!(VirtQueueDescFlag::VIRTQ_DESC_F_WRITE.bits(), 2);
}

#[test]
fn descriptors_are_distinct_and_come_back() {
    let (mut blk, _) = ready();
    let a = blk.alloc_desc(3);
    assert_eq!(a, vec![0, 1, 2]);
    let b = blk.alloc_desc(2);
    assert_eq!(b, vec![3, 4]);
    assert_eq!(blk.free_count(), 3);
    blk.free_desc(1);
    assert_eq!(blk.free_count(), 4);
    let c = blk.alloc_desc(2);
    assert_eq!(c, vec![1, 5]);
}

#[test]
fn a_request_takes_a_chain_and_frees_it() {
    let (mut blk, _) = ready();
    let first = blk.block_op(0x8800_0000, 100, BlockOpType::Write);
    assert_eq!(first.head, 0);
    assert!(first.notify == RegisterWrite { register: Register::QueueNotify, value: 0 });
    assert_eq!(blk.free_count(), 5);
    assert!(!blk.is_complete(0));
    let second = blk.block_op(0x8800_0200, 100, BlockOpType::Read);
    assert_eq!(second.head, 3);
    assert_eq!(blk.free_count(), 2);
    blk.free_desc(first.head);
    assert_eq!(blk.free_count(), 5);
    blk.free_desc(second.head);
    assert_eq!(blk.free_count(), 8);
    assert_eq!(blk.alloc_desc(8), vec![0, 1, 2, 3, 4, 5, 6, 7]);
}

#[test]
fn interrupt_completes_what_the_device_handed_back() {
    let (mut blk, _) = ready();
    let first = blk.block_op(0x8800_0000, 100, BlockOpType::Write);
    let second = blk.block_op(0x8800_0200, 100, BlockOpType::Read);
    let status = [0u8; 8];
    let ring = used(1, [0, 0, 0, 0, 0, 0, 0, 0]);
    assert!(blk.interrupt_ok(&ring, &status));
    let ack = blk.interrupt(0x1, ring, status);
    assert!(ack == RegisterWrite { register: Register::InterruptAck, value: 1 });
    assert!(blk.is_complete(first.head));
    assert!(!blk.is_complete(second.head));
    let ring = used(2, [0, 3, 0, 0, 0, 0, 0, 0]);
    assert!(blk.interrupt_ok(&ring, &status));
    let ack = blk.interrupt(0xff, ring, status);
    assert_eq!(ack.value, 3);
    assert!(blk.is_complete(second.head));
    // nothing new: nothing changes
    let ring = used(2, [7, 7, 7, 7, 7, 7, 7, 7]);
    assert!(blk.interrupt_ok(&ring, &status));
    blk.interrupt(0, ring, status);
    assert!(!blk.is_complete(7));
}

#[test]
fn a_failed_request_is_recognised() {
    let (mut blk, _) = ready();
    blk.block_op(0x8800_0000, 100, BlockOpType::Write);
    let mut status = [0u8; 8];
    status[0] = 1;
    assert!(!blk.interrupt_ok(&used(1, [0; 8]), &status));
    assert!(!blk.interrupt_ok(&used(1, [9, 0, 0, 0, 0, 0, 0, 0]), &[0u8; 8]));
    assert!(blk.interrupt_ok(&used(0, [9; 8]), &status));
}
