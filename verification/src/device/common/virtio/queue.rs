//! The split virtqueue: descriptor table, available ring, used ring.

use vstd::prelude::*;

verus! {

/// Descriptors in the queue.
pub const DESC_NUM: usize = 8;

/// Descriptor flag bit: the chain goes on in `next`.
pub const VIRTQ_DESC_F_NEXT: u16 = 1;

/// Descriptor flag bit: the device writes the buffer.
pub const VIRTQ_DESC_F_WRITE: u16 = 2;

/// Descriptor flag bit: the buffer holds a table of descriptors.
pub const VIRTQ_DESC_F_INDIRECT: u16 = 4;

/// The flags of a descriptor.
#[allow(non_camel_case_types)]
#[derive(Clone, Copy, PartialEq, Eq, Structural)]
pub enum VirtQueueDescFlag {
    VIRTQ_DESC_F_NEXT,
    VIRTQ_DESC_F_WRITE,
    VIRTQ_DESC_F_INDIRECT,
}

impl VirtQueueDescFlag {
    /// The bit that stands for the flag.
    pub open spec fn mask(self) -> u16 {
        match self {
            VirtQueueDescFlag::VIRTQ_DESC_F_NEXT => VIRTQ_DESC_F_NEXT,
            VirtQueueDescFlag::VIRTQ_DESC_F_WRITE => VIRTQ_DESC_F_WRITE,
            VirtQueueDescFlag::VIRTQ_DESC_F_INDIRECT => VIRTQ_DESC_F_INDIRECT,
        }
    }

    /// The bit that stands for the flag.
    pub fn bits(self) -> (r: u16)
        ensures
            r == self.mask(),
    {
        match self {
            VirtQueueDescFlag::VIRTQ_DESC_F_NEXT => VIRTQ_DESC_F_NEXT,
            VirtQueueDescFlag::VIRTQ_DESC_F_WRITE => VIRTQ_DESC_F_WRITE,
            VirtQueueDescFlag::VIRTQ_DESC_F_INDIRECT => VIRTQ_DESC_F_INDIRECT,
        }
    }
}

/// One descriptor: a buffer, and the link to the next one.
#[derive(Clone, Copy, PartialEq, Eq, Structural)]
pub struct VirtQueueDesc {
    pub addr: u64,
    pub len: u32,
    pub flags: u16,
    pub next: u16,
}

impl VirtQueueDesc {
    /// The chain goes on after this descriptor.
    pub open spec fn chained(self) -> bool {
        self.flags & VIRTQ_DESC_F_NEXT != 0
    }

    /// Tests whether the chain goes on after this descriptor.
    pub fn is_chained(&self) -> (r: bool)
        ensures
            r == self.chained(),
    {
        self.flags & VIRTQ_DESC_F_NEXT != 0
    }
}

/// The ring in which the driver offers chains to the device.
#[derive(Clone, Copy)]
pub struct VirtQueueAvail {
    pub flags: u16,
    pub idx: u16,
    pub ring: [u16; 8],
    pub unused: u16,
}

/// One element of the used ring: the head of a chain the device is done with.
#[derive(Clone, Copy, PartialEq, Eq, Structural)]
pub struct VirtQueueUsedElem {
    pub id: u32,
    pub len: u32,
}

/// The ring in which the device hands chains back.
#[derive(Clone, Copy)]
pub struct VirtQueueUsed {
    pub flags: u16,
    pub idx: u16,
    pub ring: [VirtQueueUsedElem; 8],
}

/// The descriptors from `head` on, following `next` while the flag says so.
/// `None` where a link leaves the table, or the chain has more than
/// `fuel + 1` descriptors.
pub open spec fn chain(desc: Seq<VirtQueueDesc>, head: u16, fuel: nat) -> Option<Seq<u16>>
    decreases fuel,
{
    if head >= desc.len() {
        None
    } else if !desc[head as int].chained() {
        Some(seq![head])
    } else if fuel == 0 {
        None
    } else {
        match chain(desc, desc[head as int].next, (fuel - 1) as nat) {
            Some(rest) => Some(seq![head] + rest),
            None => None,
        }
    }
}

/// The first `n` slots marked free at or after `start`, in rising order;
/// fewer where fewer are free.
pub open spec fn lowest_free(free: Seq<bool>, start: int, n: nat) -> Seq<u16>
    decreases free.len() - start,
{
    if n == 0 || start < 0 || start >= free.len() {
        Seq::empty()
    } else if free[start] {
        seq![start as u16] + lowest_free(free, start + 1, (n - 1) as nat)
    } else {
        lowest_free(free, start + 1, n)
    }
}

/// The free map after the slots in `slots` were taken.
pub open spec fn taken(free: Seq<bool>, slots: Seq<u16>) -> Seq<bool> {
    Seq::new(free.len(), |i: int| free[i] && !slots.contains(i as u16))
}

/// The free map after the slots in `slots` were given back.
pub open spec fn released(free: Seq<bool>, slots: Seq<u16>) -> Seq<bool> {
    Seq::new(free.len(), |i: int| free[i] || slots.contains(i as u16))
}

/// The number of slots marked free at or after `start`.
pub open spec fn count_free(free: Seq<bool>, start: int) -> nat
    decreases free.len() - start,
{
    if start < 0 || start >= free.len() {
        0
    } else if free[start] {
        1 + count_free(free, start + 1)
    } else {
        count_free(free, start + 1)
    }
}

} // verus!
