//! The register block of a legacy virtio MMIO device.

use vstd::prelude::*;

verus! {

/// The value of the magic register: "virt".
pub const VIRTIO_MAGIC: u32 = 0x74726976;

/// The version of the legacy interface.
pub const VIRTIO_VERSION: u32 = 1;

/// The device id of a block device.
pub const VIRTIO_BLOCK_DEVICE: u32 = 2;

/// The vendor id of QEMU.
pub const VIRTIO_VENDOR: u32 = 0x554d4551;

/// What was read from the registers of a device.
#[derive(Clone, Copy, PartialEq, Eq, Structural)]
pub struct VirtIORegister {
    pub magic_value: u32,
    pub version: u32,
    pub device_id: u32,
    pub vendor_id: u32,
    pub host_features: u32,
    pub queue_num_max: u32,
    pub queue_pfn: u32,
    pub interrupt_status: u32,
    pub status: u32,
}

/// The bits of the device status register.
#[allow(non_camel_case_types)]
#[derive(Clone, Copy, PartialEq, Eq, Structural)]
pub enum VirtIODeviceStatus {
    ACKNOWLEDGE,
    DRIVER,
    FAILED,
    FEATURES_OK,
    DRIVER_OK,
    DEVICE_NEEDS_RESET,
}

impl VirtIODeviceStatus {
    /// The bit that stands for the status.
    pub open spec fn mask(self) -> u32 {
        match self {
            VirtIODeviceStatus::ACKNOWLEDGE => 1,
            VirtIODeviceStatus::DRIVER => 2,
            VirtIODeviceStatus::FAILED => 128,
            VirtIODeviceStatus::FEATURES_OK => 8,
            VirtIODeviceStatus::DRIVER_OK => 4,
            VirtIODeviceStatus::DEVICE_NEEDS_RESET => 64,
        }
    }

    /// The bit that stands for the status.
    pub fn bits(self) -> (r: u32)
        ensures
            r == self.mask(),
    {
        match self {
            VirtIODeviceStatus::ACKNOWLEDGE => 1,
            VirtIODeviceStatus::DRIVER => 2,
            VirtIODeviceStatus::FAILED => 128,
            VirtIODeviceStatus::FEATURES_OK => 8,
            VirtIODeviceStatus::DRIVER_OK => 4,
            VirtIODeviceStatus::DEVICE_NEEDS_RESET => 64,
        }
    }
}

/// The registers the driver writes.
#[derive(Clone, Copy, PartialEq, Eq, Structural)]
pub enum Register {
    GuestFeatures,
    GuestPageSize,
    QueueSel,
    QueueNum,
    QueuePfn,
    QueueNotify,
    InterruptAck,
    Status,
}

impl Register {
    /// The offset of the register from the start of the block.
    pub open spec fn spec_offset(self) -> u64 {
        match self {
            Register::GuestFeatures => 0x20,
            Register::GuestPageSize => 0x28,
            Register::QueueSel => 0x30,
            Register::QueueNum => 0x38,
            Register::QueuePfn => 0x40,
            Register::QueueNotify => 0x50,
            Register::InterruptAck => 0x64,
            Register::Status => 0x70,
        }
    }

    /// The offset of the register from the start of the block.
    pub fn offset(self) -> (r: u64)
        ensures
            r == self.spec_offset(),
    {
        match self {
            Register::GuestFeatures => 0x20,
            Register::GuestPageSize => 0x28,
            Register::QueueSel => 0x30,
            Register::QueueNum => 0x38,
            Register::QueuePfn => 0x40,
            Register::QueueNotify => 0x50,
            Register::InterruptAck => 0x64,
            Register::Status => 0x70,
        }
    }
}

/// One write to a register, for the caller to carry out.
#[derive(Clone, Copy, PartialEq, Eq, Structural)]
pub struct RegisterWrite {
    pub register: Register,
    pub value: u32,
}

impl VirtIORegister {
    /// The registers identify a legacy virtio block device.
    pub open spec fn identifies_block(self) -> bool {
        self.magic_value == VIRTIO_MAGIC && self.version == VIRTIO_VERSION && self.device_id
            == VIRTIO_BLOCK_DEVICE && self.vendor_id == VIRTIO_VENDOR
    }

    /// Tests whether the registers identify a legacy virtio block device.
    pub fn is_block_device(&self) -> (r: bool)
        ensures
            r == self.identifies_block(),
    {
        self.magic_value == VIRTIO_MAGIC && self.version == VIRTIO_VERSION && self.device_id
            == VIRTIO_BLOCK_DEVICE && self.vendor_id == VIRTIO_VENDOR
    }
}

} // verus!
