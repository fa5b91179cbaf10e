//! The virtio block driver: the handshake, request chains, completion.
//!
//! The device sees two pages of memory. The first holds the descriptor
//! table and the available ring, and, in its second half, the request
//! headers and status bytes of the eight slots; the second holds the used
//! ring. The driver keeps its own copy of what it writes there; the caller
//! copies it to memory, and hands in what the device wrote.

use crate::allocator::watermark::WaterMarkAllocator;
use crate::device::common::virtio::header::{Register, RegisterWrite, VirtIORegister};
use crate::device::common::virtio::queue::{
    chain, count_free, lowest_free, released, taken, VirtQueueAvail, VirtQueueDesc, VirtQueueUsed,
    VirtQueueUsedElem, DESC_NUM, VIRTQ_DESC_F_NEXT, VIRTQ_DESC_F_WRITE,
};
use vstd::prelude::*;

verus! {

/// Bytes in a sector.
pub const BLOCK_SIZE: usize = 512;

/// Request type: read a sector.
pub const VIRTIO_BLK_T_IN: u32 = 0;

/// Request type: write a sector.
pub const VIRTIO_BLK_T_OUT: u32 = 1;

/// The features the driver does not take: read-only, SCSI, write cache
/// configuration, multiqueue, any layout, indirect descriptors, event index.
pub const UNSUPPORTED_FEATURES: u32 = 0x3800_18a0;

/// Offset of the request headers in the first queue page.
pub const REQUEST_AREA: u64 = 0x800;

/// Offset of the status bytes in the first queue page.
pub const STATUS_AREA: u64 = 0xc00;

/// The kind of a request, as the device reads it.
#[allow(non_camel_case_types)]
#[derive(Clone, Copy, PartialEq, Eq, Structural)]
pub enum VirtIOBlockReqType {
    VIRTIO_BLK_T_IN,
    VIRTIO_BLK_T_OUT,
}

/// The header of a request.
#[derive(Clone, Copy, PartialEq, Eq, Structural)]
pub struct VirtIOBlockReq {
    pub typ: u32,
    pub reserved: u32,
    pub sector: u64,
}

/// The device configuration.
#[derive(Clone, Copy, PartialEq, Eq, Structural)]
pub struct Config {
    pub capacity: u64,
}

/// What a block operation does.
#[derive(Clone, Copy, PartialEq, Eq, Structural)]
pub enum BlockOpType {
    Write,
    Read,
}

/// A request that was queued: the slot at the head of its chain, and the
/// register write that tells the device.
#[derive(Clone, Copy, PartialEq, Eq, Structural)]
pub struct Submitted {
    pub head: u16,
    pub notify: RegisterWrite,
}

/// The features the driver asks for, out of those the device offers.
pub open spec fn accepted_features(host: u32) -> u32 {
    host & !UNSUPPORTED_FEATURES
}

/// Clears every feature bit the driver does not take.
pub fn negotiate_features(host: u32) -> (r: u32)
    ensures
        r == accepted_features(host),
{
    let mut features = host;
    features &= !(1u32 << 5);
    features &= !(1u32 << 7);
    features &= !(1u32 << 11);
    features &= !(1u32 << 12);
    features &= !(1u32 << 27);
    features &= !(1u32 << 29);
    features &= !(1u32 << 28);
    assert(((((((host & !(1u32 << 5)) & !(1u32 << 7)) & !(1u32 << 11)) & !(1u32 << 12)) & !(1u32
        << 27)) & !(1u32 << 29)) & !(1u32 << 28) == host & !0x3800_18a0u32) by (bit_vector);
    features
}

/// The driver state of one virtio block device.
pub struct VirtIOBlock {
    header: u64,
    config: Config,
    pages: u64,
    desc: [VirtQueueDesc; 8],
    avail: VirtQueueAvail,
    used: VirtQueueUsed,
    free: [bool; 8],
    used_idx: u16,
    requests: [VirtIOBlockReq; 8],
    status: [u8; 8],
    complete: [bool; 8],
}

/// What the driver state is to the proofs.
pub struct BlockModel {
    pub header: u64,
    pub capacity: u64,
    pub pages: u64,
    pub desc: Seq<VirtQueueDesc>,
    pub avail_idx: u16,
    pub avail_ring: Seq<u16>,
    pub free: Seq<bool>,
    pub used_idx: u16,
    pub requests: Seq<VirtIOBlockReq>,
    pub status: Seq<u8>,
    pub complete: Seq<bool>,
}

impl View for VirtIOBlock {
    type V = BlockModel;

    closed spec fn view(&self) -> BlockModel {
        BlockModel {
            header: self.header,
            capacity: self.config.capacity,
            pages: self.pages,
            desc: self.desc@,
            avail_idx: self.avail.idx,
            avail_ring: self.avail.ring@,
            free: self.free@,
            used_idx: self.used_idx,
            requests: self.requests@,
            status: self.status@,
            complete: self.complete@,
        }
    }
}

impl BlockModel {
    /// Every table has one element for each slot.
    pub open spec fn wf(self) -> bool {
        &&& self.desc.len() == 8
        &&& self.avail_ring.len() == 8
        &&& self.free.len() == 8
        &&& self.requests.len() == 8
        &&& self.status.len() == 8
        &&& self.complete.len() == 8
        &&& self.pages + 8192 <= u64::MAX
    }

    /// Where the request header of `slot` lies in memory.
    pub open spec fn request_addr(self, slot: u16) -> u64 {
        (self.pages + REQUEST_AREA + 16 * slot) as u64
    }

    /// Where the status byte of `slot` lies in memory.
    pub open spec fn status_addr(self, slot: u16) -> u64 {
        (self.pages + STATUS_AREA + slot) as u64
    }
}

/// The register writes of the handshake, in the order they have to be made.
pub open spec fn handshake(host_features: u32, pages: u64) -> Seq<RegisterWrite> {
    seq![
        RegisterWrite { register: Register::Status, value: 1 },
        RegisterWrite { register: Register::Status, value: 3 },
        RegisterWrite { register: Register::GuestFeatures, value: accepted_features(host_features) },
        RegisterWrite { register: Register::Status, value: 11 },
        RegisterWrite { register: Register::Status, value: 15 },
        RegisterWrite { register: Register::GuestPageSize, value: 4096 },
        RegisterWrite { register: Register::QueueSel, value: 0 },
        RegisterWrite { register: Register::QueueNum, value: 8 },
        RegisterWrite { register: Register::QueuePfn, value: ((pages >> 12) & 0xffff_ffff) as u32 },
    ]
}

/// Status bits add up without carrying.
proof fn lemma_status_bits()
    by (bit_vector)
    ensures
        1u32 | 2u32 == 3u32,
        3u32 | 8u32 == 11u32,
        11u32 | 4u32 == 15u32,
{
}

/// A page number cut to 32 bits fits in 32 bits.
proof fn lemma_pfn(pages: u64)
    by (bit_vector)
    ensures
        ((pages >> 12) & 0xffff_ffff) <= 0xffff_ffff,
{
}

impl VirtIOBlock {
    /// A driver that has seen no device: everything is zero, no slot is free.
    pub fn new() -> (b: Self)
        ensures
            b@.wf(),
            b@.header == 0,
            b@.capacity == 0,
            b@.pages == 0,
            b@.avail_idx == 0,
            b@.used_idx == 0,
            forall|i: int| 0 <= i < 8 ==> !#[trigger] b@.free[i],
            forall|i: int| 0 <= i < 8 ==> !#[trigger] b@.complete[i],
    {
        let desc = VirtQueueDesc { addr: 0, len: 0, flags: 0, next: 0 };
        let elem = VirtQueueUsedElem { id: 0, len: 0 };
        let req = VirtIOBlockReq { typ: 0, reserved: 0, sector: 0 };
        Self {
            header: 0,
            config: Config { capacity: 0 },
            pages: 0,
            desc: [desc; 8],
            avail: VirtQueueAvail { flags: 0, idx: 0, ring: [0u16; 8], unused: 0 },
            used: VirtQueueUsed { flags: 0, idx: 0, ring: [elem; 8] },
            free: [false; 8],
            used_idx: 0,
            requests: [req; 8],
            status: [0u8; 8],
            complete: [false; 8],
        }
    }

    /// Takes the device at `addr` into service. `regs` is what was read from
    /// its registers and `capacity` what was read from its configuration.
    /// Two zeroed pages are taken from the heap for the queue. The result
    /// is the list of register writes that make up the handshake, in order:
    /// acknowledge, driver, the accepted features, features ok, driver ok,
    /// the page size, queue 0, its size, and its page number. Afterwards
    /// every slot is free and no request is complete.
    pub fn init(
        &mut self,
        addr: u64,
        regs: &VirtIORegister,
        capacity: u64,
        alloc: &mut WaterMarkAllocator,
    ) -> (writes: Vec<RegisterWrite>)
        requires
            old(self)@.wf(),
            regs.identifies_block(),
            regs.queue_num_max >= 8,
            old(alloc).fits(8192, 4096),
        ensures
            writes@ == handshake(regs.host_features, old(alloc).next_start(4096) as u64),
            final(self)@.wf(),
            final(self)@.header == addr,
            final(self)@.capacity == capacity,
            final(self)@.pages == old(alloc).next_start(4096),
            forall|i: int| 0 <= i < 8 ==> #[trigger] final(self)@.free[i],
            forall|i: int| 0 <= i < 8 ==> !#[trigger] final(self)@.complete[i],
            final(self)@.desc == old(self)@.desc,
            final(self)@.avail_idx == old(self)@.avail_idx,
            final(self)@.avail_ring == old(self)@.avail_ring,
            final(self)@.used_idx == old(self)@.used_idx,
            final(self)@.requests == old(self)@.requests,
            final(self)@.status == old(self)@.status,
            final(alloc).position() == old(alloc).next_start(4096) + 8192,
            final(alloc).end() == old(alloc).end(),
    {
        self.header = addr;
        self.config = Config { capacity };
        let mut writes: Vec<RegisterWrite> = Vec::new();
        proof {
            lemma_status_bits();
        }

        let mut status: u32 = 1;
        writes.push(RegisterWrite { register: Register::Status, value: status });
        status |= 2;
        writes.push(RegisterWrite { register: Register::Status, value: status });

        let features = negotiate_features(regs.host_features);
        writes.push(RegisterWrite { register: Register::GuestFeatures, value: features });

        status |= 8;
        writes.push(RegisterWrite { register: Register::Status, value: status });
        status |= 4;
        writes.push(RegisterWrite { register: Register::Status, value: status });

        writes.push(RegisterWrite { register: Register::GuestPageSize, value: 4096 });
        writes.push(RegisterWrite { register: Register::QueueSel, value: 0 });
        writes.push(RegisterWrite { register: Register::QueueNum, value: 8 });

        self.pages = alloc.allocate(8192, 4096).unwrap();
        proof {
            lemma_pfn(self.pages);
        }
        let pfn = ((self.pages >> 12) & 0xffff_ffff) as u32;
        writes.push(RegisterWrite { register: Register::QueuePfn, value: pfn });

        let mut i: usize = 0;
        while i < 8
            invariant
                i <= 8,
                self@.wf(),
                forall|k: int| 0 <= k < i ==> #[trigger] self@.free[k],
                forall|k: int| 0 <= k < i ==> !#[trigger] self@.complete[k],
                self@.header == addr,
                self@.capacity == capacity,
                self@.pages == old(alloc).next_start(4096),
                self@.desc == old(self)@.desc,
                self@.avail_idx == old(self)@.avail_idx,
                self@.avail_ring == old(self)@.avail_ring,
                self@.used_idx == old(self)@.used_idx,
                self@.requests == old(self)@.requests,
                self@.status == old(self)@.status,
            decreases 8 - i,
        {
            self.free[i] = true;
            self.complete[i] = false;
            i += 1;
        }
        assert(writes@ =~= handshake(regs.host_features, old(alloc).next_start(4096) as u64));
        writes
    }

    /// The address of the device's registers.
    pub fn header(&self) -> (r: u64)
        ensures
            r == self@.header,
    {
        self.header
    }

    /// The address of the first of the two queue pages. The descriptor
    /// table lies there, the available ring 128 bytes further, and the used
    /// ring in the second page.
    pub fn pages(&self) -> (r: u64)
        ensures
            r == self@.pages,
    {
        self.pages
    }

    /// The descriptor in `slot`, as it has to stand in the table.
    pub fn desc(&self, slot: u16) -> (r: VirtQueueDesc)
        requires
            slot < 8,
            self@.wf(),
        ensures
            r == self@.desc[slot as int],
    {
        self.desc[slot as usize]
    }

    /// The available ring, as it has to stand in memory.
    pub fn avail(&self) -> (r: VirtQueueAvail)
        ensures
            r.idx == self@.avail_idx,
            r.ring@ == self@.avail_ring,
    {
        self.avail
    }

    /// The request header of `slot`, as it has to stand in memory.
    pub fn request(&self, slot: u16) -> (r: VirtIOBlockReq)
        requires
            slot < 8,
            self@.wf(),
        ensures
            r == self@.requests[slot as int],
    {
        self.requests[slot as usize]
    }

    /// Where the request header of `slot` lies in memory.
    pub fn request_address(&self, slot: u16) -> (r: u64)
        requires
            slot < 8,
            self@.wf(),
        ensures
            r == self@.request_addr(slot),
    {
        self.pages + REQUEST_AREA + 16 * (slot as u64)
    }

    /// Where the status byte of `slot` lies in memory.
    pub fn status_address(&self, slot: u16) -> (r: u64)
        requires
            slot < 8,
            self@.wf(),
        ensures
            r == self@.status_addr(slot),
    {
        self.pages + STATUS_AREA + (slot as u64)
    }

    /// The capacity of the device, in sectors.
    pub fn size(&self) -> (r: u64)
        ensures
            r == self@.capacity,
    {
        self.config.capacity
    }

    /// Tests whether the request with head `slot` is complete.
    pub fn is_complete(&self, slot: u16) -> (r: bool)
        requires
            slot < 8,
            self@.wf(),
        ensures
            r == self@.complete[slot as int],
    {
        self.complete[slot as usize]
    }

    /// The number of free slots.
    pub fn free_count(&self) -> (r: usize)
        requires
            self@.wf(),
        ensures
            r == count_free(self@.free, 0),
            r <= 8,
    {
        let mut n: usize = 0;
        let mut i: usize = 8;
        while i > 0
            invariant
                i <= 8,
                self@.wf(),
                n == count_free(self@.free, i as int),
                n <= 8 - i,
            decreases i,
        {
            i -= 1;
            if self.free[i] {
                n += 1;
            }
        }
        n
    }
}

/// The slots that [`lowest_free`] names are below the end of the map, free,
/// in rising order, and as many as were asked for where that many are free.
pub proof fn lemma_lowest_free(free: Seq<bool>, start: int, n: nat)
    requires
        0 <= start,
        free.len() <= 8,
    ensures
        lowest_free(free, start, n).len() <= n,
        count_free(free, start) >= n ==> lowest_free(free, start, n).len() == n,
        forall|a: int|
            0 <= a < lowest_free(free, start, n).len() ==> start <= (#[trigger] lowest_free(
                free,
                start,
                n,
            )[a]) < free.len() && free[lowest_free(free, start, n)[a] as int],
        forall|a: int, b: int|
            0 <= a < b < lowest_free(free, start, n).len() ==> lowest_free(free, start, n)[a]
                < lowest_free(free, start, n)[b],
    decreases free.len() - start,
{
    if n == 0 || start >= free.len() {
    } else if free[start] {
        lemma_lowest_free(free, start + 1, (n - 1) as nat);
        let rest = lowest_free(free, start + 1, (n - 1) as nat);
        let all = lowest_free(free, start, n);
        assert(all == seq![start as u16] + rest);
        assert forall|a: int| 0 <= a < all.len() implies start <= (#[trigger] all[a]) < free.len()
            && free[all[a] as int] by {
            if a > 0 {
                assert(all[a] == rest[a - 1]);
            }
        }
        assert forall|a: int, b: int| 0 <= a < b < all.len() implies all[a] < all[b] by {
            assert(all[b] == rest[b - 1]);
            if a > 0 {
                assert(all[a] == rest[a - 1]);
            }
        }
    } else {
        lemma_lowest_free(free, start + 1, n);
    }
}

/// Slots that were taken and are given back leave the free map as it was:
/// the slots handed out are distinct and were free, and releasing them
/// marks exactly them free again.
pub proof fn lemma_release_restores(free: Seq<bool>, n: nat)
    requires
        free.len() == 8,
    ensures
        released(taken(free, lowest_free(free, 0, n)), lowest_free(free, 0, n)) == free,
        forall|a: int, b: int|
            0 <= a < b < lowest_free(free, 0, n).len() ==> lowest_free(free, 0, n)[a]
                != lowest_free(free, 0, n)[b],
        forall|a: int|
            0 <= a < lowest_free(free, 0, n).len() ==> !(#[trigger] taken(
                free,
                lowest_free(free, 0, n),
            )[lowest_free(free, 0, n)[a] as int]),
{
    lemma_lowest_free(free, 0, n);
    let slots = lowest_free(free, 0, n);
    let back = released(taken(free, slots), slots);
    assert forall|i: int| 0 <= i < 8 implies back[i] == free[i] by {
        if slots.contains(i as u16) {
            let a = choose|a: int| 0 <= a < slots.len() && slots[a] == i as u16;
            assert(free[slots[a] as int]);
        }
    }
    assert(back =~= free);
    assert forall|a: int| 0 <= a < slots.len() implies !(#[trigger] taken(
        free,
        slots,
    )[slots[a] as int]) by {
        assert(slots.contains(slots[a]));
    }
}

impl VirtIOBlock {
    /// Takes the `num` lowest free slots, in rising order.
    pub fn alloc_desc(&mut self, num: usize) -> (r: Vec<u16>)
        requires
            old(self)@.wf(),
            1 <= num <= count_free(old(self)@.free, 0),
        ensures
            r@ == lowest_free(old(self)@.free, 0, num as nat),
            r@.len() == num,
            final(self)@ == (BlockModel { free: taken(old(self)@.free, r@), ..old(self)@ }),
    {
        let ghost orig = self@.free;
        let mut result: Vec<u16> = Vec::new();
        let mut i: usize = 0;
        assert(self@.free =~= Seq::new(
            8,
            |k: int| orig[k] && !(k < i && result@.contains(k as u16)),
        ));
        while i < 8 && result.len() < num
            invariant
                i <= 8,
                orig.len() == 8,
                result@.len() <= num,
                result@ + lowest_free(orig, i as int, (num - result@.len()) as nat)
                    == lowest_free(orig, 0, num as nat),
                forall|a: int| 0 <= a < result@.len() ==> (#[trigger] result@[a]) < i,
                count_free(orig, i as int) >= num - result@.len(),
                self@ == (BlockModel {
                    free: Seq::new(
                        8,
                        |k: int| orig[k] && !(k < i && result@.contains(k as u16)),
                    ),
                    ..old(self)@
                }),
            decreases 8 - i,
        {
            let ghost before = result@;
            let ghost prev = self@.free;
            if self.free[i] {
                self.free[i] = false;
                result.push(i as u16);
                proof {
                    let rest = lowest_free(orig, i + 1, (num - result@.len()) as nat);
                    assert(before + (seq![i as u16] + rest) =~= result@ + rest);
                    assert(result@.contains(i as u16)) by {
                        assert(result@[before.len() as int] == i as u16);
                    }
                }
            }
            proof {
                let now = Seq::new(
                    8,
                    |k: int| orig[k] && !(k < i + 1 && result@.contains(k as u16)),
                );
                assert forall|k: int| 0 <= k < 8 implies self@.free[k] == now[k] by {
                    if k != i {
                        assert(self@.free[k] == prev[k]);
                        if k < i && before.contains(k as u16) {
                            let a = choose|a: int| 0 <= a < before.len() && before[a] == k as u16;
                            assert(result@[a] == k as u16);
                        }
                        if k < i && result@.contains(k as u16) {
                            let a = choose|a: int| 0 <= a < result@.len() && result@[a] == k as u16;
                            if a < before.len() {
                                assert(before[a] == k as u16);
                            }
                        }
                    } else {
                        if !orig[k] {
                        } else {
                            assert(prev[k]);
                        }
                    }
                }
                assert(self@.free =~= now);
            }
            i += 1;
        }
        proof {
            lemma_lowest_free(orig, 0, num as nat);
            assert(lowest_free(orig, i as int, (num - result@.len()) as nat) =~= Seq::<
                u16,
            >::empty()) by {
                if result@.len() < num {
                    assert(i == 8);
                }
            }
            assert(result@ =~= lowest_free(orig, 0, num as nat));
            assert forall|k: int| 0 <= k < 8 implies self@.free[k] == taken(orig, result@)[k] by {
                if k >= i && result@.contains(k as u16) {
                    let a = choose|a: int| 0 <= a < result@.len() && result@[a] == k as u16;
                    assert(result@[a] < i);
                }
            }
            assert(self@.free =~= taken(orig, result@));
        }
        result
    }

    /// Gives back the chain that starts at `index`: every descriptor linked
    /// from it is marked free.
    pub fn free_desc(&mut self, index: u16)
        requires
            old(self)@.wf(),
            chain(old(self)@.desc, index, 7) is Some,
        ensures
            final(self)@ == (BlockModel {
                free: released(old(self)@.free, chain(old(self)@.desc, index, 7).unwrap()),
                ..old(self)@
            }),
    {
        let ghost orig = self@.free;
        let ghost all = chain(self@.desc, index, 7).unwrap();
        let ghost mut visited: Seq<u16> = Seq::empty();
        let ghost mut fuel: nat = 7;
        let mut cur = index;
        assert(self@.free =~= released(orig, visited));
        loop
            invariant_except_break
                chain(self@.desc, cur, fuel) is Some,
                visited + chain(self@.desc, cur, fuel).unwrap() == all,
                self@ == (BlockModel { free: released(orig, visited), ..old(self)@ }),
                old(self)@.wf(),
                orig == old(self)@.free,
            ensures
                self@ == (BlockModel { free: released(orig, all), ..old(self)@ }),
            decreases fuel,
        {
            let ghost prev = self@.free;
            self.free[cur as usize] = true;
            proof {
                let now = released(orig, visited.push(cur));
                assert forall|k: int| 0 <= k < 8 implies self@.free[k] == now[k] by {
                    if k == cur {
                        assert(visited.push(cur)[visited.len() as int] == cur);
                    } else {
                        assert(self@.free[k] == prev[k]);
                        if visited.contains(k as u16) {
                            let a = choose|a: int| 0 <= a < visited.len() && visited[a] == k as u16;
                            assert(visited.push(cur)[a] == k as u16);
                        }
                        if visited.push(cur).contains(k as u16) {
                            let a = choose|a: int|
                                0 <= a < visited.push(cur).len() && visited.push(cur)[a]
                                    == k as u16;
                            assert(visited[a] == k as u16);
                        }
                    }
                }
                assert(self@.free =~= now);
            }
            let chained = self.desc[cur as usize].is_chained();
            if !chained {
                proof {
                    assert(visited.push(cur) =~= visited + seq![cur]);
                }
                break ;
            }
            proof {
                let rest = chain(self@.desc, self@.desc[cur as int].next, (fuel - 1) as nat);
                assert(visited.push(cur) + rest.unwrap() =~= visited + (seq![cur] + rest.unwrap()));
                visited = visited.push(cur);
                fuel = (fuel - 1) as nat;
            }
            cur = self.desc[cur as usize].next;
        }
    }
}

/// The request type that stands for an operation.
pub open spec fn request_type(op: BlockOpType) -> u32 {
    match op {
        BlockOpType::Read => VIRTIO_BLK_T_IN,
        BlockOpType::Write => VIRTIO_BLK_T_OUT,
    }
}

/// The flags of the data descriptor: the device writes the buffer of a read.
pub open spec fn data_flags(op: BlockOpType) -> u16 {
    match op {
        BlockOpType::Read => VIRTQ_DESC_F_WRITE | VIRTQ_DESC_F_NEXT,
        BlockOpType::Write => 0 | VIRTQ_DESC_F_NEXT,
    }
}

impl BlockModel {
    /// The driver state after a request was queued. The three lowest free
    /// slots form the chain: the header, the 512 bytes at `buf`, the status
    /// byte. The head goes into the available ring, and the ring's index
    /// moves on by one.
    pub open spec fn submit(self, buf: u64, sector: u64, op: BlockOpType) -> BlockModel {
        let slots = lowest_free(self.free, 0, 3);
        let a = slots[0];
        let b = slots[1];
        let c = slots[2];
        BlockModel {
            free: taken(self.free, slots),
            requests: self.requests.update(
                a as int,
                VirtIOBlockReq { typ: request_type(op), reserved: 0, sector },
            ),
            desc: self.desc.update(
                a as int,
                VirtQueueDesc {
                    addr: self.request_addr(a),
                    len: 16,
                    flags: VIRTQ_DESC_F_NEXT,
                    next: b,
                },
            ).update(
                b as int,
                VirtQueueDesc { addr: buf, len: 512, flags: data_flags(op), next: c },
            ).update(
                c as int,
                VirtQueueDesc {
                    addr: self.status_addr(a),
                    len: 1,
                    flags: VIRTQ_DESC_F_WRITE,
                    next: 0,
                },
            ),
            status: self.status.update(a as int, 0xff),
            complete: self.complete.update(a as int, false),
            avail_ring: self.avail_ring.update((self.avail_idx % 8) as int, a),
            avail_idx: ((self.avail_idx + 1) % 0x10000) as u16,
            ..self
        }
    }
}

/// Which descriptor flags carry the link bit.
proof fn lemma_link_bits()
    by (bit_vector)
    ensures
        1u16 & 1u16 != 0,
        (2u16 | 1u16) & 1u16 != 0,
        (0u16 | 1u16) & 1u16 != 0,
        2u16 & 1u16 == 0,
{
}

/// A request that was queued occupies a chain of exactly the three slots it
/// took, and giving that chain back leaves the free map as it was before
/// the request.
pub proof fn lemma_submit_then_free(m: BlockModel, buf: u64, sector: u64, op: BlockOpType)
    requires
        m.wf(),
        count_free(m.free, 0) >= 3,
    ensures
        chain(m.submit(buf, sector, op).desc, lowest_free(m.free, 0, 3)[0], 7) == Some(
            lowest_free(m.free, 0, 3),
        ),
        released(m.submit(buf, sector, op).free, lowest_free(m.free, 0, 3)) == m.free,
{
    lemma_lowest_free(m.free, 0, 3);
    lemma_release_restores(m.free, 3);
    lemma_link_bits();
    let slots = lowest_free(m.free, 0, 3);
    let a = slots[0];
    let b = slots[1];
    let c = slots[2];
    let d = m.submit(buf, sector, op).desc;
    assert(a < b && b < c && c < 8);
    assert(!d[c as int].chained());
    assert(d[b as int].chained() && d[b as int].next == c);
    assert(d[a as int].chained() && d[a as int].next == b);
    assert(chain(d, c, 5) == Some(seq![c]));
    assert(chain(d, b, 6) == Some(seq![b] + seq![c]));
    assert(chain(d, a, 7) == Some(seq![a] + (seq![b] + seq![c])));
    assert(seq![a] + (seq![b] + seq![c]) =~= slots);
}

impl VirtIOBlock {
    /// Queues one request: read the sector into the 512 bytes at `buf`, or
    /// write them to the sector. The caller then carries out the write in
    /// `notify`, waits until the request with this head is complete, and
    /// gives the chain back with [`VirtIOBlock::free_desc`].
    pub fn block_op(&mut self, buf: u64, sector: u64, op: BlockOpType) -> (r: Submitted)
        requires
            old(self)@.wf(),
            count_free(old(self)@.free, 0) >= 3,
        ensures
            final(self)@ == old(self)@.submit(buf, sector, op),
            final(self)@.wf(),
            r.head == lowest_free(old(self)@.free, 0, 3)[0],
            r.notify == (RegisterWrite { register: Register::QueueNotify, value: 0 }),
            chain(final(self)@.desc, r.head, 7) == Some(lowest_free(old(self)@.free, 0, 3)),
    {
        proof {
            lemma_lowest_free(old(self)@.free, 0, 3);
            lemma_submit_then_free(old(self)@, buf, sector, op);
        }
        let indexes = self.alloc_desc(3);
        let a = indexes[0];
        let b = indexes[1];
        let c = indexes[2];
        let typ = match op {
            BlockOpType::Read => VIRTIO_BLK_T_IN,
            BlockOpType::Write => VIRTIO_BLK_T_OUT,
        };
        self.requests[a as usize] = VirtIOBlockReq { typ, reserved: 0, sector };
        self.desc[a as usize] = VirtQueueDesc {
            addr: self.pages + REQUEST_AREA + 16 * (a as u64),
            len: 16,
            flags: VIRTQ_DESC_F_NEXT,
            next: b,
        };
        let mut flags: u16 = match op {
            BlockOpType::Read => VIRTQ_DESC_F_WRITE,
            BlockOpType::Write => 0,
        };
        flags |= VIRTQ_DESC_F_NEXT;
        self.desc[b as usize] = VirtQueueDesc { addr: buf, len: 512, flags, next: c };
        self.status[a as usize] = 0xff;
        self.desc[c as usize] = VirtQueueDesc {
            addr: self.pages + STATUS_AREA + (a as u64),
            len: 1,
            flags: VIRTQ_DESC_F_WRITE,
            next: 0,
        };
        self.complete[a as usize] = false;
        self.avail.ring[(self.avail.idx as usize) % DESC_NUM] = a;
        self.avail.idx = if self.avail.idx == 0xffff { 0 } else { self.avail.idx + 1 };
        proof {
            let m = old(self)@.submit(buf, sector, op);
            assert(self@.desc =~= m.desc);
            assert(self@.requests =~= m.requests);
            assert(self@.status =~= m.status);
            assert(self@.complete =~= m.complete);
            assert(self@.avail_ring =~= m.avail_ring);
            assert(self@.free =~= m.free);
        }
        Submitted { head: a, notify: RegisterWrite { register: Register::QueueNotify, value: 0 } }
    }
}

/// The number of chains the device has handed back and the driver has not
/// yet seen. Both indices count modulo 65536.
pub open spec fn pending_count(used_idx: u16, device_idx: u16) -> nat {
    ((device_idx - used_idx) % 0x10000) as nat
}

/// The head of the `k`-th chain the driver has not yet seen.
pub open spec fn pending_id(used_idx: u16, ring: Seq<VirtQueueUsedElem>, k: nat) -> u32 {
    ring[(((used_idx + k) % 0x10000) % 8) as int].id
}

/// Every chain the driver has not yet seen is one of its own, and the
/// device reports success for it.
pub open spec fn used_ok(
    used_idx: u16,
    device_idx: u16,
    ring: Seq<VirtQueueUsedElem>,
    status: Seq<u8>,
) -> bool {
    forall|k: nat|
        k < pending_count(used_idx, device_idx) ==> (#[trigger] pending_id(used_idx, ring, k)) < 8
            && status[pending_id(used_idx, ring, k) as int] == 0
}

impl VirtIOBlock {
    /// Tests whether [`VirtIOBlock::interrupt`] may be called on what the
    /// device wrote: whether every chain in the used ring that the driver
    /// has not yet seen is one of its own and has status 0.
    pub fn interrupt_ok(&self, used: &VirtQueueUsed, status: &[u8; 8]) -> (r: bool)
        requires
            self@.wf(),
        ensures
            r == used_ok(self@.used_idx, used.idx, used.ring@, status@),
    {
        let mut idx = self.used_idx;
        let ghost mut k: nat = 0;
        let ghost n = pending_count(self@.used_idx, used.idx);
        while idx != used.idx
            invariant
                k <= n,
                n == pending_count(self@.used_idx, used.idx),
                idx == (self@.used_idx + k) % 0x10000,
                forall|j: nat|
                    j < k ==> (#[trigger] pending_id(self@.used_idx, used.ring@, j)) < 8
                        && status@[pending_id(self@.used_idx, used.ring@, j) as int] == 0,
            decreases n - k,
        {
            let id = used.ring[(idx as usize) % DESC_NUM].id;
            assert(id == pending_id(self@.used_idx, used.ring@, k));
            if id >= 8 || status[id as usize] != 0 {
                return false;
            }
            idx = if idx == 0xffff { 0 } else { idx + 1 };
            proof {
                k = k + 1;
            }
        }
        true
    }

    /// Handles the interrupt of the device. `interrupt_status` is what the
    /// interrupt status register held; `used` and `status` are the used ring
    /// and the status bytes as the device left them. Every request whose
    /// chain the device has handed back since the last interrupt becomes
    /// complete. The result is the write that acknowledges the interrupt; it
    /// is to be carried out first.
    pub fn interrupt(&mut self, interrupt_status: u32, used: VirtQueueUsed, status: [u8; 8]) -> (ack:
        RegisterWrite)
        requires
            old(self)@.wf(),
            used_ok(old(self)@.used_idx, used.idx, used.ring@, status@),
        ensures
            ack == (RegisterWrite { register: Register::InterruptAck, value: interrupt_status & 0x3 }),
            final(self)@.wf(),
            final(self)@.used_idx == used.idx,
            final(self)@.status == status@,
            final(self)@.complete.len() == 8,
            forall|i: int|
                0 <= i < 8 ==> ((#[trigger] final(self)@.complete[i]) <==> (old(self)@.complete[i]
                    || exists|k: nat|
                    k < pending_count(old(self)@.used_idx, used.idx) && #[trigger] pending_id(
                        old(self)@.used_idx,
                        used.ring@,
                        k,
                    ) == i)),
            final(self)@ == (BlockModel {
                used_idx: final(self)@.used_idx,
                status: final(self)@.status,
                complete: final(self)@.complete,
                ..old(self)@
            }),
    {
        let ack = RegisterWrite { register: Register::InterruptAck, value: interrupt_status & 0x3 };
        self.used = used;
        self.status = status;
        let ghost mut k: nat = 0;
        let ghost start = old(self)@.used_idx;
        let ghost n = pending_count(start, used.idx);
        while self.used_idx != self.used.idx
            invariant
                k <= n,
                n == pending_count(start, used.idx),
                start == old(self)@.used_idx,
                self.used == used,
                self@.used_idx == (start + k) % 0x10000,
                used_ok(start, used.idx, used.ring@, status@),
                self@.complete.len() == 8,
                forall|i: int|
                    0 <= i < 8 ==> ((#[trigger] self@.complete[i]) <==> (old(self)@.complete[i]
                        || exists|j: nat|
                        j < k && #[trigger] pending_id(start, used.ring@, j) == i)),
                self@ == (BlockModel {
                    used_idx: self@.used_idx,
                    status: status@,
                    complete: self@.complete,
                    ..old(self)@
                }),
            decreases n - k,
        {
            let ghost prev = self@.complete;
            let id = self.used.ring[(self.used_idx as usize) % DESC_NUM].id as usize;
            assert(id == pending_id(start, used.ring@, k));
            self.complete[id] = true;
            self.used_idx = if self.used_idx == 0xffff { 0 } else { self.used_idx + 1 };
            proof {
                assert forall|i: int| 0 <= i < 8 implies ((#[trigger] self@.complete[i]) <==> (old(
                    self,
                )@.complete[i] || exists|j: nat|
                    j < k + 1 && #[trigger] pending_id(start, used.ring@, j) == i)) by {
                    if i != id {
                        assert(self@.complete[i] == prev[i]);
                        if exists|j: nat| j < k + 1 && #[trigger] pending_id(start, used.ring@, j) == i {
                            let j = choose|j: nat|
                                j < k + 1 && #[trigger] pending_id(start, used.ring@, j) == i;
                            assert(j < k);
                        }
                    }
                }
                k = k + 1;
            }
        }
        ack
    }
}

} // verus!
