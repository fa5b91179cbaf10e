//! AArch64 page tables: descriptors, tables, and the manager that builds
//! address spaces out of them.

use crate::allocator::watermark::WaterMarkAllocator;
use crate::error::VMError;
use crate::registry::{name_entries, name_map_get, name_map_insert, name_map_new, NameMap};
use vstd::prelude::*;

verus! {

/// Levels of an address space.
pub const LEVELS: usize = 3;

/// Bytes in a page.
pub const PAGE_SIZE: u64 = 4096;

/// The value of `mair_el1`: attribute 0 is normal memory, not cacheable;
/// attribute 1 is normal memory, write-back cacheable; attribute 2 is
/// device memory.
pub const MAIR_EL1: u64 = 0x0000_0000_0000_ff44;

/// Descriptor bits: index of the memory attribute.
pub const PTE_ATTRINDX: u64 = 0x1c;

/// Descriptor bit: non-secure.
pub const PTE_NS: u64 = 0x20;

/// Descriptor bits: access permissions.
pub const PTE_AP_2_1: u64 = 0xc0;

/// Descriptor bits: shareability.
pub const PTE_SH_1_0: u64 = 0x300;

/// Descriptor bit: the access flag.
pub const PTE_AF: u64 = 0x400;

/// Descriptor bit: not global.
pub const PTE_NG: u64 = 0x800;

/// Descriptor bit: user mode may not execute.
pub const PTE_UXN: u64 = 0x40_0000_0000_0000;

/// Descriptor bit: privileged mode may not execute.
pub const PTE_PXN: u64 = 0x20_0000_0000_0000;

/// Attribute index of normal memory, not cacheable.
pub const PTE_NORMAL_NON_CACHEABLE: u64 = 0x0;

/// Attribute index of normal memory, cacheable.
pub const PTE_NORMAL_CACHEABLE: u64 = 0x4;

/// Attribute index of device memory.
pub const PTE_DEVICE: u64 = 0x8;

/// Access permission: read only, all levels.
pub const PTE_RO_ALL: u64 = 0xc0;

/// Access permission: read and write, all levels.
pub const PTE_RW_ALL: u64 = 0x40;

/// Access permission: read only, privileged only.
pub const PTE_RO_EL1: u64 = 0x80;

/// Access permission: read and write, privileged only.
pub const PTE_RW_EL1: u64 = 0x0;

/// Descriptor type: page.
pub const PTE_PAGE: u64 = 0x3;

/// Descriptor type: table.
pub const PTE_TABLE: u64 = 0x3;

/// Descriptor type: block.
pub const PTE_BLOCK: u64 = 0x1;

/// Descriptor bits that hold the output address.
pub const PTE_OA: u64 = 0x7f_ffff_f000;

/// Physical addresses are below this bound: 39 bits.
pub const PHYS_LIMIT: u64 = 0x80_0000_0000;

/// Start of the peripheral window of the Raspberry Pi 3B.
pub const MMIO_BASE: u64 = 0x3f00_0000;

/// Bytes in the peripheral window.
pub const MMIO_SIZE: u64 = 0x0100_0000;

/// `bits` with the permissions applied. The access permission bits are
/// added; of the two execute-never bits, the one for the level that uses
/// the page is cleared where it may execute and set where it may not.
pub open spec fn with_flags(bits: u64, w: bool, x: bool, u: bool) -> u64 {
    let ap = if w {
        if u { bits | PTE_RW_ALL } else { bits | PTE_RW_EL1 }
    } else {
        if u { bits | PTE_RO_ALL } else { bits | PTE_RO_EL1 }
    };
    if x {
        if u { ap & !PTE_UXN } else { ap & !PTE_PXN }
    } else {
        if u { ap | PTE_UXN } else { ap | PTE_PXN }
    }
}

/// One descriptor, as the hardware reads it.
#[derive(Copy, Clone, Debug, PartialEq, Eq, Structural)]
pub struct Entry(pub u64);

impl Entry {
    /// The descriptor is in use.
    pub open spec fn valid(self) -> bool {
        self.0 & 0b11 != 0
    }

    /// The descriptor is a block.
    pub open spec fn block(self) -> bool {
        self.0 & 0b11 == PTE_BLOCK
    }

    /// The descriptor is in use and points to the next table.
    pub open spec fn pointer(self) -> bool {
        self.valid() && !self.block()
    }

    /// The output address: of a frame, a block or a table.
    pub open spec fn frame(self) -> u64 {
        self.0 & PTE_OA
    }

    /// Stores are allowed.
    pub open spec fn writable(self) -> bool {
        self.0 & 0x80 == 0
    }

    /// User mode may use the page.
    pub open spec fn user(self) -> bool {
        self.0 & 0x40 != 0
    }

    /// The level that uses the page may execute it.
    pub open spec fn executable(self) -> bool {
        if self.user() {
            self.0 & PTE_UXN == 0
        } else {
            self.0 & PTE_PXN == 0
        }
    }

    /// The index of the memory attribute, in place.
    pub open spec fn attr(self) -> u64 {
        self.0 & PTE_ATTRINDX
    }

    /// The access flag is set.
    pub open spec fn accessed(self) -> bool {
        self.0 & PTE_AF != 0
    }

    pub fn is_valid(&self) -> (r: bool)
        ensures
            r == self.valid(),
    {
        self.0 & 0b11 != 0
    }

    pub fn is_invalid(&self) -> (r: bool)
        ensures
            r == !self.valid(),
    {
        !self.is_valid()
    }

    pub fn is_block(&self) -> (r: bool)
        ensures
            r == self.block(),
    {
        self.0 & 0b11 == PTE_BLOCK
    }

    /// Makes the descriptor a table descriptor.
    pub fn as_table(&mut self)
        ensures
            final(self).0 == (old(self).0 & !0b11u64) | PTE_TABLE,
    {
        self.0 = (self.0 & !0b11u64) | PTE_TABLE
    }

    /// Makes the descriptor a page descriptor.
    pub fn as_page(&mut self)
        ensures
            final(self).0 == (old(self).0 & !0b11u64) | PTE_PAGE,
    {
        self.0 = (self.0 & !0b11u64) | PTE_PAGE;
    }

    /// Makes the descriptor a block descriptor.
    pub fn as_block(&mut self)
        ensures
            final(self).0 == (old(self).0 & !0b11u64) | PTE_BLOCK,
    {
        self.0 = (self.0 & !0b11u64) | PTE_BLOCK;
    }

    /// Replaces the output address by the bits of `oa`.
    pub fn set_oa(&mut self, oa: u64)
        ensures
            final(self).0 == (old(self).0 & !PTE_OA) | oa,
    {
        self.0 = (self.0 & !PTE_OA) | oa
    }

    /// The output address.
    pub fn get_oa(&self) -> (r: u64)
        ensures
            r == self.frame(),
    {
        self.0 & PTE_OA
    }

    /// Applies the permissions. A page cannot be denied to reads.
    pub fn set_flags(&mut self, r: bool, w: bool, x: bool, u: bool)
        requires
            r,
        ensures
            final(self).0 == with_flags(old(self).0, w, x, u),
    {
        if w {
            if u {
                self.0 |= PTE_RW_ALL;
            } else {
                self.0 |= PTE_RW_EL1;
            }
        } else {
            if u {
                self.0 |= PTE_RO_ALL;
            } else {
                self.0 |= PTE_RO_EL1;
            }
        }
        if x {
            if u {
                self.0 = self.0 & !PTE_UXN;
            } else {
                self.0 = self.0 & !PTE_PXN;
            }
        } else {
            if u {
                self.0 |= PTE_UXN;
            } else {
                self.0 |= PTE_PXN;
            }
        }
    }

    /// Sets the access flag.
    pub fn set_af(&mut self)
        ensures
            final(self).0 == old(self).0 | PTE_AF,
    {
        self.0 |= PTE_AF
    }

    /// Replaces the attribute index by the bits of `attr`.
    pub fn set_attr(&mut self, attr: u64)
        ensures
            final(self).0 == (old(self).0 & !PTE_ATTRINDX) | attr,
    {
        self.0 = (self.0 & !PTE_ATTRINDX) | attr;
    }
}

/// The descriptor that maps the frame at `paddr` with the given permissions
/// and memory attribute.
pub open spec fn leaf_entry(paddr: u64, w: bool, x: bool, u: bool, attr: u64) -> Entry {
    Entry(
        (((with_flags((0 & !0b11u64) | PTE_PAGE, w, x, u) & !PTE_OA) | paddr) & !PTE_ATTRINDX
            | attr) | PTE_AF,
    )
}

/// The descriptor that points to the table at `table`.
pub open spec fn pointer_entry(table: u64) -> Entry {
    Entry((((0 & !0b11u64) | PTE_TABLE) & !PTE_OA) | table)
}

/// The descriptor that identity filling puts at `index` of a table at
/// `level`, under a block whose output address was `old`: a block,
/// readable, writable and executable in privileged mode, normal cacheable
/// memory, access flag set, with output address
/// `(index << (12 + 9 * level)) | old`.
pub open spec fn identity_entry(index: int, level: nat, old: u64) -> Entry {
    Entry(
        (((((with_flags((0 & !0b11u64) | PTE_BLOCK, true, true, false) & !PTE_ATTRINDX)
            | PTE_NORMAL_CACHEABLE) | PTE_AF) & !PTE_OA) | (((index as u64) << ((12 + 9
            * level) as u64)) | old)),
    )
}

/// A descriptor built for a page-aligned address below the physical limit
/// gives back that address, the attribute, and exactly the permissions it
/// was built with.
pub proof fn lemma_leaf_entry(paddr: u64, w: bool, x: bool, u: bool, attr: u64)
    by (bit_vector)
    requires
        paddr % 4096 == 0,
        paddr < 0x80_0000_0000,
        attr == 0x0 || attr == 0x4 || attr == 0x8,
    ensures
        leaf_entry(paddr, w, x, u, attr).valid(),
        !leaf_entry(paddr, w, x, u, attr).block(),
        leaf_entry(paddr, w, x, u, attr).frame() == paddr,
        leaf_entry(paddr, w, x, u, attr).writable() == w,
        leaf_entry(paddr, w, x, u, attr).executable() == x,
        leaf_entry(paddr, w, x, u, attr).user() == u,
        leaf_entry(paddr, w, x, u, attr).attr() == attr,
        leaf_entry(paddr, w, x, u, attr).accessed(),
{
}

/// A table pointer built for a page-aligned address below the physical limit
/// is in use, is no block, and gives back that address.
pub proof fn lemma_pointer_entry(table: u64)
    by (bit_vector)
    requires
        table % 4096 == 0,
        table < 0x80_0000_0000,
    ensures
        pointer_entry(table).valid(),
        !pointer_entry(table).block(),
        pointer_entry(table).frame() == table,
{
}

impl Default for Entry {
    /// The descriptor that maps nothing.
    fn default() -> (e: Self)
        ensures
            e.0 == 0,
    {
        Entry(0)
    }
}

/// Bytes that one entry of a table at `level` covers: 4 KiB, 2 MiB or 1 GiB.
pub open spec fn span(level: nat) -> u64 {
    1u64 << ((12 + 9 * level) as u64)
}

/// The index into the table at `level` that `vaddr` selects.
pub open spec fn vpn(vaddr: u64, level: nat) -> int {
    ((vaddr >> ((12 + 9 * level) as u64)) & 0x1ff) as int
}

/// The physical address that a leaf at `level` holding `frame` gives to
/// `vaddr`: the start of the block, plus the offset of `vaddr` in it.
pub open spec fn translate(frame: u64, vaddr: u64, level: nat) -> u64 {
    let mask = (span(level) - 1) as u64;
    ((frame & !mask) + (vaddr & mask)) as u64
}

/// What a page table is to the proofs: where it lies, how far above the
/// pages it stands, and its entries.
pub struct TableModel {
    pub base: u64,
    pub level: nat,
    pub entries: Seq<Entry>,
}

/// What the page-table manager is to the proofs: the tables it has made, in
/// the order it made them, and the roots it knows by name.
pub struct AddressSpaces {
    pub tables: Seq<TableModel>,
    pub roots: Map<Seq<char>, u64>,
}

impl AddressSpaces {
    /// `j` is the first table that lies at `addr`.
    pub open spec fn is_slot(self, addr: u64, j: int) -> bool {
        &&& 0 <= j < self.tables.len()
        &&& self.tables[j].base == addr
        &&& forall|k: int| 0 <= k < j ==> (#[trigger] self.tables[k]).base != addr
    }

    /// A table lies at `addr`.
    pub open spec fn has_table(self, addr: u64) -> bool {
        exists|j: int| self.is_slot(addr, j)
    }

    /// The position of the table that lies at `addr`.
    pub open spec fn slot(self, addr: u64) -> int {
        choose|j: int| self.is_slot(addr, j)
    }

    /// A table of the given level lies at `addr`.
    pub open spec fn has_table_at(self, addr: u64, level: nat) -> bool {
        exists|j: int|
            0 <= j < self.tables.len() && (#[trigger] self.tables[j]).base == addr
                && self.tables[j].level == level
    }

    /// The entry of the table at `table` that `vaddr` selects at `level`.
    pub open spec fn entry_for(self, table: u64, level: nat, vaddr: u64) -> Entry {
        self.tables[self.slot(table)].entries[vpn(vaddr, level)]
    }

    /// The translation of `vaddr`, starting in the table at `table`, which
    /// stands at `level`. An entry not in use, or a pointer to where no table
    /// lies, ends the walk with `NotFound`. A block ends the walk above level 0.
    pub open spec fn walk_from(self, table: u64, level: nat, vaddr: u64) -> Result<u64, VMError>
        decreases level,
    {
        let e = self.entry_for(table, level, vaddr);
        if !self.has_table(table) || !e.valid() {
            Err(VMError::NotFound)
        } else if level == 0 || e.block() {
            Ok(translate(e.frame(), vaddr, level))
        } else {
            self.walk_from(e.frame(), (level - 1) as nat, vaddr)
        }
    }

    /// The translation of `vaddr` in the address space rooted at `root`.
    pub open spec fn walk(self, root: u64, vaddr: u64) -> Result<u64, VMError> {
        self.walk_from(root, 2, vaddr)
    }

    /// The level-0 entry that the walk for `vaddr` ends in, where the walk
    /// goes through three tables.
    pub open spec fn page_entry(self, root: u64, vaddr: u64) -> Option<Entry> {
        let e2 = self.entry_for(root, 2, vaddr);
        let e1 = self.entry_for(e2.frame(), 1, vaddr);
        if self.has_table(root) && e2.valid() && !e2.block() && self.has_table(e2.frame())
            && e1.valid() && !e1.block() && self.has_table(e1.frame()) {
            Some(self.entry_for(e1.frame(), 0, vaddr))
        } else {
            None
        }
    }

    /// The number of tables that mapping the page at `vaddr` has to make:
    /// one for each level at which the walk does not meet a pointer.
    pub open spec fn tables_needed(self, root: u64, vaddr: u64) -> nat {
        let e2 = self.entry_for(root, 2, vaddr);
        if !e2.pointer() {
            2
        } else if !self.entry_for(e2.frame(), 1, vaddr).pointer() {
            1
        } else {
            0
        }
    }

    /// Every table lies at a page boundary below the physical limit, has
    /// 512 entries and a level of at most 2, and no two share an address.
    pub open spec fn tables_wf(self) -> bool {
        &&& forall|j: int|
            0 <= j < self.tables.len() ==> {
                &&& (#[trigger] self.tables[j]).base % PAGE_SIZE == 0
                &&& self.tables[j].base < PHYS_LIMIT
                &&& self.tables[j].level <= 2
                &&& self.tables[j].entries.len() == 512
            }
        &&& forall|j: int, k: int|
            0 <= j < k < self.tables.len() ==> (#[trigger] self.tables[j]).base != (
            #[trigger] self.tables[k]).base
    }

    /// Entry `k` of table `j`, if it is a pointer, points to a table one
    /// level below.
    pub open spec fn pointer_ok(self, j: int, k: int) -> bool {
        let t = self.tables[j];
        let e = t.entries[k];
        (t.level >= 1 && e.valid() && !e.block()) ==> self.has_table_at(
            e.frame(),
            (t.level - 1) as nat,
        )
    }

    /// The invariant of the manager: the tables are well formed, every
    /// pointer leads to a table one level below, and every root is a table
    /// of level 2.
    pub open spec fn wf(self) -> bool {
        &&& self.tables_wf()
        &&& forall|j: int, k: int|
            0 <= j < self.tables.len() && 0 <= k < 512 ==> #[trigger] self.pointer_ok(j, k)
        &&& forall|name: Seq<char>| #[trigger]
            self.roots.contains_key(name) ==> self.has_table_at(self.roots[name], 2)
        &&& self.unique_parents()
    }

    /// Entry `k` of table `j` is a pointer that the walk follows.
    pub open spec fn is_pointer(self, j: int, k: int) -> bool {
        &&& 0 <= j < self.tables.len()
        &&& 0 <= k < 512
        &&& self.tables[j].level >= 1
        &&& self.tables[j].entries[k].pointer()
    }

    /// No table is pointed to twice: the tables form trees.
    pub open spec fn unique_parents(self) -> bool {
        forall|j: int, k: int, j2: int, k2: int|
            #[trigger] self.is_pointer(j, k) && #[trigger] self.is_pointer(j2, k2)
                && self.tables[j].entries[k].frame() == self.tables[j2].entries[k2].frame()
                ==> j == j2 && k == k2
    }

    /// Entry `k` of table `j` is new in `later`, or differs from what it was.
    pub open spec fn changed(self, later: AddressSpaces, j: int, k: int) -> bool {
        j >= self.tables.len() || later.tables[j].entries[k] != self.tables[j].entries[k]
    }

    /// Every table lies wholly below `cursor`.
    pub open spec fn below(self, cursor: u64) -> bool {
        forall|j: int|
            0 <= j < self.tables.len() ==> (#[trigger] self.tables[j]).base + PAGE_SIZE <= cursor
    }

    /// `later` holds every table of `self`, at the same place, address and
    /// level.
    pub open spec fn extended_by(self, later: AddressSpaces) -> bool {
        &&& self.tables.len() <= later.tables.len()
        &&& forall|j: int|
            0 <= j < self.tables.len() ==> (#[trigger] later.tables[j]).base
                == self.tables[j].base && later.tables[j].level == self.tables[j].level
    }
}

/// One table: 512 entries, 4096 bytes.
pub struct PageTable {
    addr: u64,
    level: Ghost<nat>,
    entries: [Entry; 512],
}

impl View for PageTable {
    type V = TableModel;

    closed spec fn view(&self) -> TableModel {
        TableModel { base: self.addr, level: self.level@, entries: self.entries@ }
    }
}

impl PageTable {
    /// The physical address of the table.
    pub fn address(&self) -> (r: u64)
        ensures
            r == self@.base,
    {
        self.addr
    }

    /// The number of entries.
    pub fn size(&self) -> (r: usize)
        ensures
            r == 512,
            r == self@.entries.len(),
    {
        self.entries.len()
    }

    /// The entry at `index`.
    pub fn get_entry(&self, index: usize) -> (e: Entry)
        requires
            index < 512,
        ensures
            e == self@.entries[index as int],
    {
        self.entries[index]
    }
}

/// The page-table manager: the tables of every address space, and the roots
/// by name.
pub struct VMManager {
    root_tables: NameMap,
    tables: Vec<PageTable>,
}

impl View for VMManager {
    type V = AddressSpaces;

    closed spec fn view(&self) -> AddressSpaces {
        AddressSpaces {
            tables: Seq::new(self.tables@.len(), |j: int| self.tables@[j]@),
            roots: name_entries(self.root_tables),
        }
    }
}

/// Facts about shifts and masks that the walk relies on.
proof fn lemma_walk_bits(vaddr: u64, bits: u64, level: u64)
    by (bit_vector)
    requires
        level <= 2,
    ensures
        ((vaddr >> (12 + 9 * level)) & 0x1ff) < 512,
        ((bits & 0x7f_ffff_f000u64)) < 0x80_0000_0000,
        (1u64 << (12 + 9 * level)) >= 1,
        (1u64 << (12 + 9 * level)) <= 0x4000_0000,
        (((bits & 0x7f_ffff_f000u64)) & !(((1u64 << (12 + 9 * level)) - 1) as u64))
            < 0x80_0000_0000,
        (vaddr & (((1u64 << (12 + 9 * level)) - 1) as u64)) < 0x4000_0000,
{
}

/// Every descriptor written by identity filling under a block is a block.
proof fn lemma_identity_leaf(i: u64, level: u64, bits: u64)
    by (bit_vector)
    requires
        level <= 3,
        i < 512,
    ensures
        identity_entry(i as int, level as nat, bits & 0x7f_ffff_f000u64).block(),
        identity_entry(i as int, level as nat, bits & 0x7f_ffff_f000u64).valid(),
        0u64 & 0x7f_ffff_f000u64 == 0,
{
}

impl PageTable {
    /// A table at `addr` with no entry in use.
    fn zeroed(addr: u64, level: Ghost<nat>) -> (t: Self)
        ensures
            t@.base == addr,
            t@.level == level@,
            t@.entries.len() == 512,
            forall|k: int| 0 <= k < 512 ==> (#[trigger] t@.entries[k]).0 == 0,
    {
        PageTable { addr, level, entries: [Entry(0); 512] }
    }

    /// A table at `addr` with no entry in use.
    pub fn new(addr: u64) -> (t: Self)
        ensures
            t@.base == addr,
            t@.entries.len() == 512,
            forall|k: int| 0 <= k < 512 ==> (#[trigger] t@.entries[k]).0 == 0,
    {
        PageTable::zeroed(addr, Ghost(2))
    }

    /// Replaces the entry at `index`.
    pub fn update_entry(&mut self, index: usize, entry: Entry)
        requires
            index < 512,
        ensures
            final(self)@ == (TableModel {
                entries: old(self)@.entries.update(index as int, entry),
                ..old(self)@
            }),
    {
        self.entries[index] = entry
    }

    /// Fills the table so that entry `i` is a block, readable, writable and
    /// executable in privileged mode, of normal cacheable memory, with the
    /// access flag set and the output address `(i << (12 + 9 * level)) | base`.
    /// With `base` zero, entry `i` maps the block that starts at
    /// `i << (12 + 9 * level)` to itself.
    pub fn identity_mapping(&mut self, level: usize, base: u64)
        requires
            level <= 3,
        ensures
            final(self)@.base == old(self)@.base,
            final(self)@.level == old(self)@.level,
            final(self)@.entries.len() == 512,
            forall|k: int|
                0 <= k < 512 ==> #[trigger] final(self)@.entries[k] == identity_entry(
                    k,
                    level as nat,
                    base,
                ),
    {
        let mut i: usize = 0;
        while i < self.size()
            invariant
                i <= 512,
                level <= 3,
                self@.base == old(self)@.base,
                self@.level == old(self)@.level,
                self@.entries.len() == 512,
                forall|k: int|
                    0 <= k < i ==> #[trigger] self@.entries[k] == identity_entry(
                        k,
                        level as nat,
                        base,
                    ),
            decreases 512 - i,
        {
            let paddr = ((i as u64) << (12 + 9 * (level as u64))) | base;
            let mut entry = Entry(0);
            entry.as_block();
            entry.set_flags(true, true, true, false);
            entry.set_attr(PTE_NORMAL_CACHEABLE);
            entry.set_af();
            entry.set_oa(paddr);
            self.update_entry(i, entry);
            i += 1;
        }
    }
}

impl VMManager {
    /// A manager with no table and no root.
    pub fn new() -> (m: Self)
        ensures
            m@.tables.len() == 0,
            m@.roots == crate::registry::no_names(),
            m@.wf(),
            m@.below(0),
    {
        Self { root_tables: name_map_new(), tables: Vec::new() }
    }

    /// The position of the first table that lies at `addr`.
    fn find(&self, addr: u64) -> (r: Option<usize>)
        ensures
            match r {
                Some(j) => self@.is_slot(addr, j as int) && self@.has_table(addr) && self@.slot(
                    addr,
                ) == j,
                None => !self@.has_table(addr),
            },
    {
        let mut j: usize = 0;
        while j < self.tables.len()
            invariant
                j <= self.tables.len(),
                forall|k: int| 0 <= k < j ==> (#[trigger] self@.tables[k]).base != addr,
            decreases self.tables.len() - j,
        {
            if self.tables[j].addr == addr {
                proof {
                    assert(self@.is_slot(addr, j as int));
                    let c = self@.slot(addr);
                    assert(self@.is_slot(addr, c));
                    assert(c == j);
                }
                return Some(j);
            }
            j += 1;
        }
        proof {
            assert forall|c: int| !self@.is_slot(addr, c) by {
                if self@.is_slot(addr, c) {
                    assert(self@.tables[c].base == addr);
                }
            }
        }
        None
    }

    /// Tests whether a table lies at `addr`.
    pub fn has_table(&self, addr: u64) -> (r: bool)
        ensures
            r == self@.has_table(addr),
    {
        self.find(addr).is_some()
    }

    /// The root registered under `name`.
    pub fn get_table(&self, name: &str) -> (r: u64)
        requires
            self@.roots.contains_key(name@),
        ensures
            r == self@.roots[name@],
    {
        name_map_get(&self.root_tables, name).unwrap()
    }

    /// Tests whether a root is registered under `name`.
    pub fn has_root(&self, name: &str) -> (r: bool)
        ensures
            r == self@.roots.contains_key(name@),
    {
        name_map_get(&self.root_tables, name).is_some()
    }

    /// The translation of `vaddr` in the address space `name`: the frame of
    /// the page, or the start of the block, plus the offset of `vaddr` in it.
    /// `NotFound` where the walk meets an entry that is not in use.
    pub fn walk(&self, name: &str, vaddr: u64) -> (r: Result<u64, VMError>)
        requires
            self@.roots.contains_key(name@),
        ensures
            r == self@.walk(self@.roots[name@], vaddr),
    {
        let mut table = self.get_table(name);
        let mut level: usize = LEVELS - 1;
        loop
            invariant
                level <= 2,
                self@.walk_from(table, level as nat, vaddr) == self@.walk(
                    self@.roots[name@],
                    vaddr,
                ),
            decreases level,
        {
            let slot = match self.find(table) {
                None => { return Err(VMError::NotFound); },
                Some(slot) => slot,
            };
            proof {
                lemma_walk_bits(vaddr, 0, level as u64);
            }
            let index = ((vaddr >> (12 + 9 * (level as u64))) & 0x1ff) as usize;
            let entry = self.tables[slot].entries[index];
            assert(entry == self@.entry_for(table, level as nat, vaddr));
            if entry.is_invalid() {
                return Err(VMError::NotFound);
            }
            if level == 0 || entry.is_block() {
                proof {
                    lemma_walk_bits(vaddr, entry.0, level as u64);
                }
                let mask: u64 = (1u64 << (12 + 9 * (level as u64))) - 1;
                return Ok((entry.get_oa() & !mask) + (vaddr & mask));
            }
            table = entry.get_oa();
            level -= 1;
        }
    }

}

/// An entry of all zeroes is not in use.
proof fn lemma_zero_entry()
    by (bit_vector)
    ensures
        !Entry(0).valid(),
{
}

impl AddressSpaces {
    /// In well-formed tables, each table is the one found at its address.
    pub proof fn lemma_slot(self, j: int)
        requires
            self.tables_wf(),
            0 <= j < self.tables.len(),
        ensures
            self.is_slot(self.tables[j].base, j),
            self.has_table(self.tables[j].base),
            self.slot(self.tables[j].base) == j,
            self.has_table_at(self.tables[j].base, self.tables[j].level),
    {
        let addr = self.tables[j].base;
        assert(self.is_slot(addr, j));
        let c = self.slot(addr);
        assert(self.is_slot(addr, c));
        assert(self.tables[c].base == addr);
    }

    /// A table of some level at `addr` is the table found at `addr`.
    pub proof fn lemma_found(self, addr: u64, level: nat)
        requires
            self.tables_wf(),
            self.has_table_at(addr, level),
        ensures
            self.has_table(addr),
            0 <= self.slot(addr) < self.tables.len(),
            self.tables[self.slot(addr)].base == addr,
            self.tables[self.slot(addr)].level == level,
    {
        let j = choose|j: int|
            0 <= j < self.tables.len() && (#[trigger] self.tables[j]).base == addr
                && self.tables[j].level == level;
        self.lemma_slot(j);
    }

    /// Tables that are kept stay findable.
    pub proof fn lemma_kept(self, later: AddressSpaces, addr: u64, level: nat)
        requires
            self.extended_by(later),
            self.has_table_at(addr, level),
        ensures
            later.has_table_at(addr, level),
    {
        let j = choose|j: int|
            0 <= j < self.tables.len() && (#[trigger] self.tables[j]).base == addr
                && self.tables[j].level == level;
        assert(later.tables[j].base == addr && later.tables[j].level == level);
    }

    /// The invariant survives a change that keeps every table's address and
    /// level, keeps the old roots, and leaves every pointer of a changed or
    /// added table well formed.
    pub proof fn lemma_wf_kept(self, later: AddressSpaces)
        requires
            self.wf(),
            later.tables_wf(),
            self.extended_by(later),
            later.roots == self.roots,
            forall|j: int, k: int|
                0 <= j < later.tables.len() && 0 <= k < 512 && (j >= self.tables.len()
                    || later.tables[j].entries[k] != self.tables[j].entries[k])
                    ==> #[trigger] later.pointer_ok(j, k),
            forall|j: int, k: int, j2: int, k2: int|
                #[trigger] later.is_pointer(j, k) && #[trigger] later.is_pointer(j2, k2)
                    && self.changed(later, j, k) && !(j == j2 && k == k2)
                    ==> later.tables[j].entries[k].frame() != later.tables[j2].entries[k2].frame(),
        ensures
            later.wf(),
    {
        assert forall|j: int, k: int|
            0 <= j < later.tables.len() && 0 <= k < 512 implies #[trigger] later.pointer_ok(
            j,
            k,
        ) by {
            if j < self.tables.len() && later.tables[j].entries[k] == self.tables[j].entries[k] {
                assert(self.pointer_ok(j, k));
                let t = self.tables[j];
                let e = t.entries[k];
                assert(later.tables[j].level == t.level);
                if t.level >= 1 && e.valid() && !e.block() {
                    self.lemma_kept(later, e.frame(), (t.level - 1) as nat);
                }
            }
        }
        assert forall|name: Seq<char>| #[trigger]
            later.roots.contains_key(name) implies later.has_table_at(later.roots[name], 2) by {
            self.lemma_kept(later, self.roots[name], 2);
        }
        assert forall|j: int, k: int, j2: int, k2: int|
            #[trigger] later.is_pointer(j, k) && #[trigger] later.is_pointer(j2, k2)
                && later.tables[j].entries[k].frame() == later.tables[j2].entries[k2].frame()
                implies j == j2 && k == k2 by {
            if !(j == j2 && k == k2) {
                if self.changed(later, j, k) {
                } else if self.changed(later, j2, k2) {
                    assert(later.is_pointer(j2, k2) && later.is_pointer(j, k));
                } else {
                    assert(later.tables[j].level == self.tables[j].level);
                    assert(later.tables[j2].level == self.tables[j2].level);
                    assert(self.is_pointer(j, k) && self.is_pointer(j2, k2));
                }
            }
        }
    }
}

impl VMManager {
    /// Adds a fresh table of the given level, with no entry in use, at the
    /// next page boundary of the heap.
    fn push_table(&mut self, alloc: &mut WaterMarkAllocator, level: Ghost<nat>) -> (slot: usize)
        requires
            old(self)@.wf(),
            old(self)@.below(old(alloc).position()),
            old(alloc).fits_pages(1),
            old(alloc).end() <= PHYS_LIMIT,
            level@ <= 2,
        ensures
            slot == old(self)@.tables.len(),
            final(self)@.tables.len() == slot + 1,
            forall|j: int| 0 <= j < slot ==> #[trigger] final(self)@.tables[j] == old(self)@.tables[j],
            final(self)@.tables[slot as int].base == old(alloc).next_start(4096),
            final(self)@.tables[slot as int].level == level@,
            final(self)@.tables[slot as int].entries.len() == 512,
            forall|k: int|
                0 <= k < 512 ==> (#[trigger] final(self)@.tables[slot as int].entries[k]).0 == 0,
            final(self)@.roots == old(self)@.roots,
            final(self)@.wf(),
            final(self)@.below(final(alloc).position()),
            old(self)@.extended_by(final(self)@),
            final(alloc).position() == old(alloc).next_start(4096) + 4096,
            final(alloc).end() == old(alloc).end(),
    {
        proof {
            crate::allocator::watermark::lemma_align_up(old(alloc).position() as int, 4096);
        }
        let addr = alloc.allocate(4096, 4096).unwrap();
        let table = PageTable::zeroed(addr, level);
        self.tables.push(table);
        proof {
            let before = old(self)@;
            let after = self@;
            let slot = before.tables.len() as int;
            assert forall|j: int| 0 <= j < slot implies #[trigger] after.tables[j]
                == before.tables[j] by {}
            assert(after.tables_wf());
            lemma_zero_entry();
            assert forall|j: int, k: int|
                0 <= j < after.tables.len() && 0 <= k < 512 && (j >= before.tables.len()
                    || after.tables[j].entries[k] != before.tables[j].entries[k])
                    implies #[trigger] after.pointer_ok(j, k) by {
                assert(j == slot);
                assert(after.tables[slot].entries[k].0 == 0);
                assert(after.tables[slot].entries[k] == Entry(0));
            }
            before.lemma_wf_kept(after);
        }
        self.tables.len() - 1
    }

    /// Makes a fresh root table: one page, no entry in use. It is not yet
    /// registered under a name.
    pub fn create_table(&mut self, alloc: &mut WaterMarkAllocator) -> (addr: u64)
        requires
            old(self)@.wf(),
            old(self)@.below(old(alloc).position()),
            old(alloc).fits_pages(1),
            old(alloc).end() <= PHYS_LIMIT,
        ensures
            addr == old(alloc).next_start(4096),
            addr % PAGE_SIZE == 0,
            final(self)@.has_table_at(addr, 2),
            final(self)@.tables.len() == old(self)@.tables.len() + 1,
            final(self)@.roots == old(self)@.roots,
            final(self)@.wf(),
            final(self)@.below(final(alloc).position()),
            old(self)@.extended_by(final(self)@),
            final(alloc).position() == addr + 4096,
            final(alloc).end() == old(alloc).end(),
            forall|vaddr: u64| final(self)@.walk(addr, vaddr) == Err::<u64, VMError>(VMError::NotFound),
            forall|vaddr: u64| #[trigger] final(self)@.tables_needed(addr, vaddr) == 2,
    {
        let slot = self.push_table(alloc, Ghost(2));
        proof {
            let v = self@;
            v.lemma_slot(slot as int);
            lemma_zero_entry();
            assert forall|vaddr: u64| #[trigger] v.tables_needed(addr_of(v, slot as int), vaddr)
                == 2 by {
                lemma_walk_bits(vaddr, 0, 2);
                let e = v.entry_for(v.tables[slot as int].base, 2, vaddr);
                assert(e.0 == 0);
                assert(e == Entry(0));
            }
            assert forall|vaddr: u64| v.walk(addr_of(v, slot as int), vaddr) == Err::<u64, VMError>(
                VMError::NotFound,
            ) by {
                lemma_walk_bits(vaddr, 0, 2);
                let e = v.entry_for(v.tables[slot as int].base, 2, vaddr);
                assert(e.0 == 0);
                assert(e == Entry(0));
            }
        }
        self.tables[slot].addr
    }

    /// Registers the root table at `table` under `name`. A root that was
    /// registered under that name before is forgotten.
    pub fn set_table(&mut self, name: String, table: u64)
        requires
            old(self)@.wf(),
            old(self)@.has_table_at(table, 2),
        ensures
            final(self)@.roots == old(self)@.roots.insert(name@, table),
            final(self)@.tables == old(self)@.tables,
            final(self)@.wf(),
    {
        name_map_insert(&mut self.root_tables, name, table);
        proof {
            assert(self@.tables =~= old(self)@.tables);
            let before = old(self)@;
            let after = self@;
            assert forall|j: int, k: int|
                0 <= j < after.tables.len() && 0 <= k < 512 implies #[trigger] after.pointer_ok(
                j,
                k,
            ) by {
                assert(before.pointer_ok(j, k));
            }
            assert forall|n: Seq<char>| #[trigger]
                after.roots.contains_key(n) implies after.has_table_at(after.roots[n], 2) by {
                if n != name@ {
                    assert(before.roots.contains_key(n));
                }
            }
            assert forall|j: int, k: int, j2: int, k2: int|
                #[trigger] after.is_pointer(j, k) && #[trigger] after.is_pointer(j2, k2)
                    && after.tables[j].entries[k].frame() == after.tables[j2].entries[k2].frame()
                    implies j == j2 && k == k2 by {
                assert(before.is_pointer(j, k) && before.is_pointer(j2, k2));
            }
        }
    }
}

/// The address of table `j`.
pub open spec fn addr_of(v: AddressSpaces, j: int) -> u64 {
    v.tables[j].base
}

impl AddressSpaces {
    /// `later` differs from `self` in the entries of table `slot` at most.
    pub open spec fn same_but(self, later: AddressSpaces, slot: int) -> bool {
        &&& later.tables.len() == self.tables.len()
        &&& later.roots == self.roots
        &&& forall|j: int|
            0 <= j < self.tables.len() && j != slot ==> #[trigger] later.tables[j]
                == self.tables[j]
        &&& later.tables[slot].base == self.tables[slot].base
        &&& later.tables[slot].level == self.tables[slot].level
        &&& later.tables[slot].entries.len() == self.tables[slot].entries.len()
    }
}

impl VMManager {
    /// Identity filling of the table at position `slot`, under a block whose
    /// descriptor was `bits`.
    fn fill(&mut self, slot: usize, level: usize, bits: u64)
        requires
            old(self)@.wf(),
            slot < old(self)@.tables.len(),
            level <= 2,
        ensures
            old(self)@.same_but(final(self)@, slot as int),
            forall|k: int|
                0 <= k < 512 ==> #[trigger] final(self)@.tables[slot as int].entries[k]
                    == identity_entry(k, level as nat, bits & PTE_OA),
            final(self)@.wf(),
    {
        self.tables[slot].identity_mapping(level, bits & PTE_OA);
        proof {
            let before = old(self)@;
            let after = self@;
            assert forall|j: int|
                0 <= j < before.tables.len() && j != slot implies #[trigger] after.tables[j]
                == before.tables[j] by {}
            assert(before.extended_by(after)) by {
                assert forall|j: int| 0 <= j < before.tables.len() implies (
                #[trigger] after.tables[j]).base == before.tables[j].base
                    && after.tables[j].level == before.tables[j].level by {
                    if j != slot {
                        assert(after.tables[j] == before.tables[j]);
                    }
                }
            }
            assert(after.tables_wf()) by {
                assert forall|j: int| 0 <= j < after.tables.len() implies {
                    &&& (#[trigger] after.tables[j]).base % PAGE_SIZE == 0
                    &&& after.tables[j].base < PHYS_LIMIT
                    &&& after.tables[j].level <= 2
                    &&& after.tables[j].entries.len() == 512
                } by {
                    assert(before.tables[j].entries.len() == 512);
                    if j != slot {
                        assert(after.tables[j] == before.tables[j]);
                    }
                }
            }
            assert forall|j: int, k: int|
                0 <= j < after.tables.len() && 0 <= k < 512 && (j >= before.tables.len()
                    || after.tables[j].entries[k] != before.tables[j].entries[k])
                    implies #[trigger] after.pointer_ok(j, k) by {
                if j != slot {
                    assert(after.tables[j] == before.tables[j]);
                } else {
                    lemma_identity_leaf(k as u64, level as u64, bits);
                }
            }
            assert forall|j: int, k: int| #[trigger]
                after.is_pointer(j, k) implies !before.changed(after, j, k) by {
                if j != slot {
                    assert(after.tables[j] == before.tables[j]);
                } else {
                    lemma_identity_leaf(k as u64, level as u64, bits);
                }
            }
            before.lemma_wf_kept(after);
        }
    }
}

/// Identity filling leaves no gap and no overlap: with no output address to
/// inherit, entry `i` is a block that holds the address
/// `i << (12 + 9 * level)`, and an address below 512 blocks lies in the
/// block of exactly one entry, the one its own bits select.
pub proof fn lemma_identity_fill(i: u64, addr: u64, level: u64)
    by (bit_vector)
    requires
        level <= 2,
        i < 512,
        addr < (512u64 << (12 + 9 * level)),
    ensures
        identity_entry(i as int, level as nat, 0).valid(),
        identity_entry(i as int, level as nat, 0).block(),
        identity_entry(i as int, level as nat, 0).writable(),
        identity_entry(i as int, level as nat, 0).executable(),
        !identity_entry(i as int, level as nat, 0).user(),
        identity_entry(i as int, level as nat, 0).attr() == 0x4,
        identity_entry(i as int, level as nat, 0).accessed(),
        identity_entry(i as int, level as nat, 0).frame() == i << (12 + 9 * level),
        (i << (12 + 9 * level)) == i * (1u64 << (12 + 9 * level)),
        (addr >> (12 + 9 * level)) < 512,
        ((i << (12 + 9 * level)) <= addr && addr - (i << (12 + 9 * level)) < (1u64 << (12 + 9
            * level))) <==> i == (addr >> (12 + 9 * level)),
{
}

impl AddressSpaces {
    /// Two managers with the same tables agree on where a table lies.
    pub proof fn lemma_same_slot(self, other: AddressSpaces, addr: u64, level: nat)
        requires
            self.tables == other.tables,
            self.tables_wf(),
            self.has_table_at(addr, level),
        ensures
            other.has_table(addr),
            other.slot(addr) == self.slot(addr),
    {
        self.lemma_found(addr, level);
        let j = self.slot(addr);
        assert(other.tables[j].base == addr && other.tables[j].level == level);
        other.lemma_found(addr, level);
    }

    /// Registering a root changes no translation: two managers with the
    /// same tables agree on what mapping a page takes.
    pub proof fn lemma_same_tables(self, other: AddressSpaces, root: u64, vaddr: u64)
        requires
            self.tables == other.tables,
            self.wf(),
            self.has_table_at(root, 2),
        ensures
            other.tables_needed(root, vaddr) == self.tables_needed(root, vaddr),
    {
        lemma_walk_bits(vaddr, 0, 2);
        lemma_walk_bits(vaddr, 0, 1);
        self.lemma_same_slot(other, root, 2);
        self.lemma_found(root, 2);
        let e2 = self.entry_for(root, 2, vaddr);
        assert(other.entry_for(root, 2, vaddr) == e2);
        if e2.pointer() {
            assert(self.pointer_ok(self.slot(root), vpn(vaddr, 2)));
            self.lemma_same_slot(other, e2.frame(), 1);
        }
    }

    /// Keeping tables is transitive.
    pub proof fn lemma_extended_twice(self, mid: AddressSpaces, later: AddressSpaces)
        requires
            self.extended_by(mid),
            mid.extended_by(later),
        ensures
            self.extended_by(later),
    {
        assert forall|j: int| 0 <= j < self.tables.len() implies (
        #[trigger] later.tables[j]).base == self.tables[j].base && later.tables[j].level
            == self.tables[j].level by {
            assert(mid.tables[j].base == self.tables[j].base);
        }
    }

    /// The invariant survives writing an entry of a table of level 0.
    pub proof fn lemma_entry_written(self, later: AddressSpaces, slot: int, index: int)
        requires
            self.wf(),
            0 <= slot < self.tables.len(),
            0 <= index < 512,
            self.tables[slot].level == 0,
            later.roots == self.roots,
            later.tables.len() == self.tables.len(),
            forall|j: int|
                0 <= j < self.tables.len() ==> (#[trigger] later.tables[j]).base
                    == self.tables[j].base && later.tables[j].level == self.tables[j].level
                    && later.tables[j].entries.len() == self.tables[j].entries.len(),
            forall|j: int, k: int|
                0 <= j < self.tables.len() && 0 <= k < 512 && !(j == slot && k == index)
                    ==> #[trigger] later.tables[j].entries[k] == self.tables[j].entries[k],
        ensures
            later.wf(),
            self.extended_by(later),
    {
        assert(later.tables_wf()) by {
            assert forall|j: int| 0 <= j < later.tables.len() implies {
                &&& (#[trigger] later.tables[j]).base % PAGE_SIZE == 0
                &&& later.tables[j].base < PHYS_LIMIT
                &&& later.tables[j].level <= 2
                &&& later.tables[j].entries.len() == 512
            } by {
                assert(self.tables[j].entries.len() == 512);
            }
            assert forall|j: int, k: int| 0 <= j < k < later.tables.len() implies (
            #[trigger] later.tables[j]).base != (#[trigger] later.tables[k]).base by {
                assert(self.tables[j].base != self.tables[k].base);
            }
        }
        assert forall|j: int, k: int|
            0 <= j < later.tables.len() && 0 <= k < 512 && (j >= self.tables.len()
                || later.tables[j].entries[k] != self.tables[j].entries[k])
                implies #[trigger] later.pointer_ok(j, k) by {
            assert(j == slot);
            assert(later.tables[slot].level == 0);
        }
        self.lemma_wf_kept(later);
    }

    /// Where the entries that `vaddr` selects lead from the root through
    /// tables `s2`, `s1` and `s0`, the walk ends in the entry of `s0`.
    pub proof fn lemma_path(self, root: u64, vaddr: u64, s2: int, s1: int, s0: int)
        requires
            self.tables_wf(),
            0 <= s2 < self.tables.len(),
            0 <= s1 < self.tables.len(),
            0 <= s0 < self.tables.len(),
            self.tables[s2].base == root,
            self.tables[s2].entries[vpn(vaddr, 2)].pointer(),
            self.tables[s2].entries[vpn(vaddr, 2)].frame() == self.tables[s1].base,
            self.tables[s1].entries[vpn(vaddr, 1)].pointer(),
            self.tables[s1].entries[vpn(vaddr, 1)].frame() == self.tables[s0].base,
            self.tables[s0].entries[vpn(vaddr, 0)].valid(),
        ensures
            self.page_entry(root, vaddr) == Some(self.tables[s0].entries[vpn(vaddr, 0)]),
            self.walk(root, vaddr) == Ok::<u64, VMError>(
                translate(self.tables[s0].entries[vpn(vaddr, 0)].frame(), vaddr, 0),
            ),
    {
        self.lemma_slot(s2);
        self.lemma_slot(s1);
        self.lemma_slot(s0);
        let e2 = self.tables[s2].entries[vpn(vaddr, 2)];
        let e1 = self.tables[s1].entries[vpn(vaddr, 1)];
        let e0 = self.tables[s0].entries[vpn(vaddr, 0)];
        assert(self.entry_for(root, 2, vaddr) == e2);
        assert(self.entry_for(e2.frame(), 1, vaddr) == e1);
        assert(self.entry_for(e1.frame(), 0, vaddr) == e0);
        assert(self.walk_from(e1.frame(), 0, vaddr) == Ok::<u64, VMError>(
            translate(e0.frame(), vaddr, 0),
        ));
        assert(self.walk_from(e2.frame(), 1, vaddr) == self.walk_from(e1.frame(), 0, vaddr));
        assert(self.walk_from(root, 2, vaddr) == self.walk_from(e2.frame(), 1, vaddr));
    }

    /// The two addresses select the same entry at every level.
    pub open spec fn same_page(vaddr: u64, other: u64) -> bool {
        vpn(vaddr, 2) == vpn(other, 2) && vpn(vaddr, 1) == vpn(other, 1) && vpn(vaddr, 0) == vpn(
            other,
            0,
        )
    }

    /// Every entry of `self` that differs in `later` lies on the path of
    /// `vaddr` through tables `s2`, `s1` and `s0`, and above level 0 only an
    /// entry that was no pointer differs.
    pub open spec fn changed_on_path(
        self,
        later: AddressSpaces,
        vaddr: u64,
        s2: int,
        s1: int,
        s0: int,
    ) -> bool {
        forall|j: int, k: int|
            0 <= j < self.tables.len() && 0 <= k < 512 && #[trigger] later.tables[j].entries[k]
                != self.tables[j].entries[k] ==> (j == s2 && k == vpn(vaddr, 2)
                && !self.tables[j].entries[k].pointer()) || (j == s1 && k == vpn(vaddr, 1)
                && !self.tables[j].entries[k].pointer()) || (j == s0 && k == vpn(vaddr, 0))
    }

    /// Every page that `self` maps through three tables, other than the
    /// page of `vaddr` under `root`, has in `later` the entry and the
    /// translation it had.
    pub open spec fn pages_kept(self, later: AddressSpaces, root: u64, vaddr: u64) -> bool {
        forall|root2: u64, vaddr2: u64|
            (#[trigger] self.page_entry(root2, vaddr2)) is Some && self.has_table_at(root2, 2)
                && !(root2 == root && Self::same_page(vaddr, vaddr2)) ==> later.page_entry(
                root2,
                vaddr2,
            ) == self.page_entry(root2, vaddr2) && later.walk(root2, vaddr2) == self.walk(
                root2,
                vaddr2,
            )
    }

    /// A change along the path of one page leaves every other mapped page
    /// as it was.
    pub proof fn lemma_page_kept(
        self,
        later: AddressSpaces,
        root: u64,
        vaddr: u64,
        s2: int,
        s1: int,
        s0: int,
        root2: u64,
        vaddr2: u64,
    )
        requires
            self.wf(),
            later.tables_wf(),
            self.extended_by(later),
            0 <= s2 < self.tables.len(),
            self.tables[s2].base == root,
            self.tables[s2].level == 2,
            0 <= s1 < later.tables.len(),
            later.tables[s1].level == 1,
            0 <= s0 < later.tables.len(),
            later.tables[s0].level == 0,
            self.changed_on_path(later, vaddr, s2, s1, s0),
            s0 < self.tables.len() ==> s1 < self.tables.len() && self.is_pointer(
                s2,
                vpn(vaddr, 2),
            ) && self.tables[s2].entries[vpn(vaddr, 2)].frame() == self.tables[s1].base
                && self.is_pointer(s1, vpn(vaddr, 1)) && self.tables[s1].entries[vpn(
                vaddr,
                1,
            )].frame() == self.tables[s0].base,
            self.page_entry(root2, vaddr2) is Some,
            self.has_table_at(root2, 2),
            !(root2 == root && Self::same_page(vaddr, vaddr2)),
        ensures
            later.page_entry(root2, vaddr2) == self.page_entry(root2, vaddr2),
            later.walk(root2, vaddr2) == self.walk(root2, vaddr2),
    {
        lemma_walk_bits(vaddr2, 0, 0);
        lemma_walk_bits(vaddr2, 0, 1);
        lemma_walk_bits(vaddr2, 0, 2);
        lemma_walk_bits(vaddr, 0, 0);
        lemma_walk_bits(vaddr, 0, 1);
        lemma_walk_bits(vaddr, 0, 2);
        let i2 = vpn(vaddr2, 2);
        let i1 = vpn(vaddr2, 1);
        let i0 = vpn(vaddr2, 0);
        self.lemma_found(root2, 2);
        let t2 = self.slot(root2);
        let e2 = self.tables[t2].entries[i2];
        assert(e2 == self.entry_for(root2, 2, vaddr2));
        assert(self.pointer_ok(t2, i2));
        self.lemma_found(e2.frame(), 1);
        let t1 = self.slot(e2.frame());
        let e1 = self.tables[t1].entries[i1];
        assert(e1 == self.entry_for(e2.frame(), 1, vaddr2));
        assert(self.pointer_ok(t1, i1));
        self.lemma_found(e1.frame(), 0);
        let t0 = self.slot(e1.frame());
        let e0 = self.tables[t0].entries[i0];
        assert(self.is_pointer(t2, i2));
        assert(self.is_pointer(t1, i1));
        assert(later.tables[t2].level == 2 && later.tables[t1].level == 1 && later.tables[t0].level
            == 0);
        if s0 < self.tables.len() {
            assert(later.tables[s0].level == self.tables[s0].level);
            assert(later.tables[s1].level == self.tables[s1].level);
        }
        assert(later.tables[t2].entries[i2] == e2);
        assert(later.tables[t1].entries[i1] == e1);
        assert(later.tables[t0].entries[i0] == e0) by {
            if later.tables[t0].entries[i0] != e0 {
                assert(t0 == s0 && i0 == vpn(vaddr, 0));
                assert(t1 == s1 && i1 == vpn(vaddr, 1));
                assert(t2 == s2 && i2 == vpn(vaddr, 2));
            }
        }
        later.lemma_slot(t2);
        later.lemma_slot(t1);
        later.lemma_slot(t0);
        assert(later.entry_for(root2, 2, vaddr2) == e2);
        assert(later.entry_for(e2.frame(), 1, vaddr2) == e1);
        assert(later.entry_for(e1.frame(), 0, vaddr2) == e0);
        assert(later.walk_from(e1.frame(), 0, vaddr2) == self.walk_from(e1.frame(), 0, vaddr2));
        assert(later.walk_from(e2.frame(), 1, vaddr2) == later.walk_from(e1.frame(), 0, vaddr2));
        assert(self.walk_from(e2.frame(), 1, vaddr2) == self.walk_from(e1.frame(), 0, vaddr2));
        assert(later.walk_from(root2, 2, vaddr2) == later.walk_from(e2.frame(), 1, vaddr2));
        assert(self.walk_from(root2, 2, vaddr2) == self.walk_from(e2.frame(), 1, vaddr2));
    }

    /// Two steps down and the write of a leaf change entries on the path of
    /// `vaddr` only, and leave every other mapped page as it was.
    pub proof fn lemma_map_keeps_pages(
        self,
        mid: AddressSpaces,
        low: AddressSpaces,
        later: AddressSpaces,
        root: u64,
        vaddr: u64,
        s2: int,
        s1: int,
        s0: int,
    )
        requires
            self.wf(),
            later.tables_wf(),
            self.extended_by(mid),
            mid.extended_by(low),
            low.extended_by(later),
            0 <= s2 < self.tables.len(),
            self.tables[s2].base == root,
            self.tables[s2].level == 2,
            0 <= s1 < mid.tables.len(),
            mid.tables[s1].level == 1,
            0 <= s0 < low.tables.len(),
            low.tables[s0].level == 0,
            self.entries_kept_but(mid, s2, vpn(vaddr, 2)),
            self.tables[s2].entries[vpn(vaddr, 2)].pointer() ==> mid == self,
            !self.tables[s2].entries[vpn(vaddr, 2)].pointer() ==> s1 == self.tables.len()
                && forall|k: int| 0 <= k < 512 ==> (#[trigger] mid.tables[s1].entries[k]).block(),
            mid.tables[s2].entries[vpn(vaddr, 2)].frame() == mid.tables[s1].base,
            mid.entries_kept_but(low, s1, vpn(vaddr, 1)),
            mid.tables[s1].entries[vpn(vaddr, 1)].pointer() ==> low == mid,
            !mid.tables[s1].entries[vpn(vaddr, 1)].pointer() ==> s0 == mid.tables.len(),
            low.tables[s1].entries[vpn(vaddr, 1)].frame() == low.tables[s0].base,
            low.entries_kept_but(later, s0, vpn(vaddr, 0)),
        ensures
            self.pages_kept(later, root, vaddr),
    {
        lemma_walk_bits(vaddr, 0, 0);
        lemma_walk_bits(vaddr, 0, 1);
        lemma_walk_bits(vaddr, 0, 2);
        self.lemma_extended_twice(mid, low);
        self.lemma_extended_twice(low, later);
        mid.lemma_extended_twice(low, later);
        assert(later.tables[s1].level == 1 && later.tables[s0].level == 0);
        assert(self.changed_on_path(later, vaddr, s2, s1, s0)) by {
            assert forall|j: int, k: int|
                0 <= j < self.tables.len() && 0 <= k < 512 && #[trigger] later.tables[j].entries[k]
                    != self.tables[j].entries[k] implies (j == s2 && k == vpn(vaddr, 2)
                && !self.tables[j].entries[k].pointer()) || (j == s1 && k == vpn(vaddr, 1)
                && !self.tables[j].entries[k].pointer()) || (j == s0 && k == vpn(vaddr, 0)) by {
                if !(j == s0 && k == vpn(vaddr, 0)) {
                    assert(later.tables[j].entries[k] == low.tables[j].entries[k]);
                    if !(j == s1 && k == vpn(vaddr, 1)) {
                        assert(low.tables[j].entries[k] == mid.tables[j].entries[k]);
                        assert(j == s2 && k == vpn(vaddr, 2));
                    } else {
                        assert(mid.tables[s1].level == self.tables[s1].level);
                        assert(s1 != s2);
                        assert(mid.tables[j].entries[k] == self.tables[j].entries[k]);
                    }
                }
            }
        }
        if s0 < self.tables.len() {
            assert(mid.tables[s1].entries[vpn(vaddr, 1)].pointer());
            assert(low == mid);
            if !self.tables[s2].entries[vpn(vaddr, 2)].pointer() {
                assert(mid.tables[s1].entries[vpn(vaddr, 1)].block());
            }
            assert(mid == self);
        }
        assert forall|root2: u64, vaddr2: u64|
            (#[trigger] self.page_entry(root2, vaddr2)) is Some && self.has_table_at(root2, 2)
                && !(root2 == root && Self::same_page(vaddr, vaddr2)) implies later.page_entry(
            root2,
            vaddr2,
        ) == self.page_entry(root2, vaddr2) && later.walk(root2, vaddr2) == self.walk(
            root2,
            vaddr2,
        ) by {
            self.lemma_page_kept(later, root, vaddr, s2, s1, s0, root2, vaddr2);
        }
    }

    /// `later` holds every table of `self` with the same entries, but for
    /// entry `index` of table `slot`.
    pub open spec fn entries_kept_but(self, later: AddressSpaces, slot: int, index: int) -> bool {
        forall|j: int, k: int|
            0 <= j < self.tables.len() && 0 <= k < 512 && !(j == slot && k == index)
                ==> #[trigger] later.tables[j].entries[k] == self.tables[j].entries[k]
    }
}

impl VMManager {
    /// One step down from the table at position `slot`, which stands at
    /// `level`: the position of the table that entry `index` points to.
    /// Where the entry is not in use, or is a block, a fresh table takes its
    /// place, identity filled so that it maps what the block mapped.
    #[verifier::rlimit(60)]
    fn descend(
        &mut self,
        slot: usize,
        level: usize,
        index: usize,
        alloc: &mut WaterMarkAllocator,
    ) -> (child: usize)
        requires
            old(self)@.wf(),
            old(self)@.below(old(alloc).position()),
            slot < old(self)@.tables.len(),
            old(self)@.tables[slot as int].level == level,
            1 <= level <= 2,
            index < 512,
            old(alloc).fits_pages(1),
            old(alloc).end() <= PHYS_LIMIT,
        ensures
            final(self)@.wf(),
            final(self)@.below(final(alloc).position()),
            final(self)@.roots == old(self)@.roots,
            old(self)@.extended_by(final(self)@),
            old(self)@.entries_kept_but(final(self)@, slot as int, index as int),
            child < final(self)@.tables.len(),
            child != slot,
            final(self)@.tables[child as int].level == level - 1,
            final(self)@.tables[slot as int].entries[index as int].valid(),
            !final(self)@.tables[slot as int].entries[index as int].block(),
            final(self)@.tables[slot as int].entries[index as int].frame()
                == final(self)@.tables[child as int].base,
            final(alloc).end() == old(alloc).end(),
            old(self)@.tables[slot as int].entries[index as int].pointer() ==> final(self)@
                == old(self)@ && final(alloc).position() == old(alloc).position(),
            !old(self)@.tables[slot as int].entries[index as int].pointer() ==> final(self)@.tables.len() == old(self)@.tables.len() + 1 && final(alloc).position() == old(alloc).next_start(4096) + 4096 && child == old(self)@.tables.len() && forall|k: int|
                0 <= k < 512 ==> (#[trigger] final(self)@.tables[child as int].entries[k]).block(),
            !old(self)@.tables[slot as int].entries[index as int].pointer() ==> forall|k: int|
                0 <= k < 512 ==> #[trigger] final(self)@.tables[child as int].entries[k]
                    == identity_entry(
                    k,
                    (level - 1) as nat,
                    fill_oa(old(self)@.tables[slot as int].entries[index as int]),
                ),
    {
        let entry = self.tables[slot].entries[index];
        if entry.is_block() || entry.is_invalid() {
            let bits = if entry.is_invalid() { 0 } else { entry.0 };
            let child = self.push_table(alloc, Ghost((level - 1) as nat));
            let ghost pushed = self@;
            self.fill(child, level - 1, bits);
            let ghost filled = self@;
            let child_addr = self.tables[child].addr;
            let mut new_entry = Entry::default();
            new_entry.as_table();
            new_entry.set_oa(child_addr);
            self.tables[slot].entries[index] = new_entry;
            proof {
                let before = old(self)@;
                let after = self@;
                lemma_pointer_entry(child_addr);
                assert(new_entry == pointer_entry(child_addr));
                assert(after.tables.len() == filled.tables.len());
                assert forall|j: int| 0 <= j < after.tables.len() implies (
                #[trigger] after.tables[j]).base == filled.tables[j].base
                    && after.tables[j].level == filled.tables[j].level
                    && after.tables[j].entries.len() == filled.tables[j].entries.len() by {}
                assert forall|j: int, k: int|
                    0 <= j < after.tables.len() && 0 <= k < 512 && !(j == slot && k == index)
                        implies #[trigger] after.tables[j].entries[k]
                    == filled.tables[j].entries[k] by {}
                assert(filled.extended_by(after));
                assert(after.tables_wf()) by {
                    assert forall|j: int| 0 <= j < after.tables.len() implies {
                        &&& (#[trigger] after.tables[j]).base % PAGE_SIZE == 0
                        &&& after.tables[j].base < PHYS_LIMIT
                        &&& after.tables[j].level <= 2
                        &&& after.tables[j].entries.len() == 512
                    } by {
                        assert(filled.tables[j].entries.len() == 512);
                    }
                    assert forall|j: int, k: int| 0 <= j < k < after.tables.len() implies (
                    #[trigger] after.tables[j]).base != (#[trigger] after.tables[k]).base by {
                        assert(filled.tables[j].base != filled.tables[k].base);
                    }
                }
                assert forall|j: int, k: int|
                    0 <= j < after.tables.len() && 0 <= k < 512 && (j >= filled.tables.len()
                        || after.tables[j].entries[k] != filled.tables[j].entries[k])
                        implies #[trigger] after.pointer_ok(j, k) by {
                    assert(j == slot && k == index);
                    assert(after.tables[child as int].base == child_addr);
                    assert(after.tables[child as int].level == level - 1);
                }
                assert forall|j: int, k: int, j2: int, k2: int|
                    #[trigger] after.is_pointer(j, k) && #[trigger] after.is_pointer(j2, k2)
                        && filled.changed(after, j, k) && !(j == j2 && k == k2)
                        implies after.tables[j].entries[k].frame()
                    != after.tables[j2].entries[k2].frame() by {
                    assert(j == slot && k == index);
                    assert(after.tables[j2].entries[k2] == filled.tables[j2].entries[k2]);
                    if j2 == child {
                        lemma_identity_leaf(k2 as u64, (level - 1) as u64, bits);
                    } else {
                        assert(filled.tables[j2] == pushed.tables[j2]);
                        assert(pushed.tables[j2] == before.tables[j2]);
                        assert(before.pointer_ok(j2, k2));
                        let f = before.tables[j2].entries[k2].frame();
                        let w = choose|w: int|
                            0 <= w < before.tables.len() && (#[trigger] before.tables[w]).base == f
                                && before.tables[w].level == (before.tables[j2].level - 1) as nat;
                        assert(after.tables[w].base == f);
                        assert(after.tables[w].base != after.tables[child as int].base);
                    }
                }
                filled.lemma_wf_kept(after);
                assert(before.extended_by(after)) by {
                    assert forall|j: int| 0 <= j < before.tables.len() implies (
                    #[trigger] after.tables[j]).base == before.tables[j].base
                        && after.tables[j].level == before.tables[j].level by {
                        assert(pushed.tables[j] == before.tables[j]);
                        assert(filled.tables[j] == pushed.tables[j]);
                    }
                }
                assert(before.entries_kept_but(after, slot as int, index as int)) by {
                    assert forall|j: int, k: int|
                        0 <= j < before.tables.len() && 0 <= k < 512 && !(j == slot && k
                            == index) implies #[trigger] after.tables[j].entries[k]
                        == before.tables[j].entries[k] by {
                        assert(pushed.tables[j] == before.tables[j]);
                        assert(filled.tables[j] == pushed.tables[j]);
                    }
                }
                assert(after.below(alloc.position())) by {
                    assert forall|j: int| 0 <= j < after.tables.len() implies (
                    #[trigger] after.tables[j]).base + PAGE_SIZE <= alloc.position() by {
                        assert(filled.tables[j].base == pushed.tables[j].base);
                    }
                }
                assert forall|k: int| 0 <= k < 512 implies #[trigger] after.tables[child as int].entries[k]
                    == identity_entry(k, (level - 1) as nat, fill_oa(entry)) by {
                    assert(after.tables[child as int].entries[k]
                        == filled.tables[child as int].entries[k]);
                    lemma_identity_leaf(k as u64, (level - 1) as u64, bits);
                }
                assert forall|k: int| 0 <= k < 512 implies (
                #[trigger] after.tables[child as int].entries[k]).block() by {
                    assert(after.tables[child as int].entries[k]
                        == filled.tables[child as int].entries[k]);
                    lemma_identity_leaf(k as u64, (level - 1) as u64, bits);
                }
            }
            child
        } else {
            let child_addr = entry.get_oa();
            proof {
                let v = self@;
                assert(v.pointer_ok(slot as int, index as int));
                v.lemma_found(child_addr, (level - 1) as nat);
            }
            self.find(child_addr).unwrap()
        }
    }

    /// Writes entry `index` of the level-0 table at position `slot`.
    fn write_page(&mut self, slot: usize, index: usize, entry: Entry)
        requires
            old(self)@.wf(),
            slot < old(self)@.tables.len(),
            index < 512,
            old(self)@.tables[slot as int].level == 0,
        ensures
            final(self)@.wf(),
            old(self)@.extended_by(final(self)@),
            final(self)@.roots == old(self)@.roots,
            final(self)@.tables.len() == old(self)@.tables.len(),
            old(self)@.entries_kept_but(final(self)@, slot as int, index as int),
            final(self)@.tables[slot as int].entries[index as int] == entry,
    {
        self.tables[slot].entries[index] = entry;
        proof {
            let low = old(self)@;
            let after = self@;
            assert forall|j: int| 0 <= j < after.tables.len() implies (
            #[trigger] after.tables[j]).base == low.tables[j].base && after.tables[j].level
                == low.tables[j].level && after.tables[j].entries.len()
                == low.tables[j].entries.len() by {}
            assert forall|j: int, k: int|
                0 <= j < after.tables.len() && 0 <= k < 512 && !(j == slot && k == index)
                    implies #[trigger] after.tables[j].entries[k] == low.tables[j].entries[k] by {}
            low.lemma_entry_written(after, slot as int, index as int);
        }
    }

    /// Maps the page at `vaddr` to the frame at `paddr` in the address space
    /// rooted at `table`. On the way down from the root, an entry that is
    /// not in use, or is a block, is replaced by a pointer to a fresh table
    /// that maps what the block mapped; at level 0 the entry for `vaddr`
    /// becomes a leaf with the given permissions.
    #[verifier::rlimit(60)]
    pub fn map_page(
        &mut self,
        table: u64,
        paddr: u64,
        vaddr: u64,
        r: bool,
        w: bool,
        x: bool,
        u: bool,
        attr: u64,
        alloc: &mut WaterMarkAllocator,
    ) -> (res: Result<(), VMError>)
        requires
            r,
            old(self)@.wf(),
            old(self)@.below(old(alloc).position()),
            old(self)@.has_table_at(table, 2),
            old(alloc).fits_pages(2),
            old(alloc).end() <= PHYS_LIMIT,
        ensures
            res is Ok,
            final(self)@.wf(),
            final(self)@.below(final(alloc).position()),
            final(self)@.roots == old(self)@.roots,
            old(self)@.extended_by(final(self)@),
            final(self)@.tables.len() == old(self)@.tables.len() + old(self)@.tables_needed(
                table,
                vaddr,
            ),
            final(alloc).end() == old(alloc).end(),
            final(alloc).position() == (if final(self)@.tables.len() == old(self)@.tables.len() {
                old(alloc).position() as int
            } else {
                old(alloc).next_start(4096) + 4096 * (final(self)@.tables.len() - old(self)@.tables.len())
            }),
            final(self)@.page_entry(table, vaddr) == Some(leaf_entry(paddr, w, x, u, attr)),
            final(self)@.walk(table, vaddr) == Ok::<u64, VMError>(
                translate(leaf_entry(paddr, w, x, u, attr).frame(), vaddr, 0),
            ),
            old(self)@.pages_kept(final(self)@, table, vaddr),
            old(self)@.walks_kept(final(self)@, table, vaddr),
    {
        proof {
            old(self)@.lemma_found(table, 2);
            lemma_walk_bits(vaddr, 0, 0);
            lemma_walk_bits(vaddr, 0, 1);
            lemma_walk_bits(vaddr, 0, 2);
            crate::allocator::watermark::lemma_align_up(old(alloc).position() as int, 4096);
        }
        let i0 = ((vaddr >> 12) & 0x1ff) as usize;
        let i1 = ((vaddr >> 21) & 0x1ff) as usize;
        let i2 = ((vaddr >> 30) & 0x1ff) as usize;
        let s2 = self.find(table).unwrap();
        let s1 = self.descend(s2, 2, i2, alloc);
        let ghost mid = self@;
        proof {
            crate::allocator::watermark::lemma_align_up(alloc.position() as int, 4096);
        }
        let s0 = self.descend(s1, 1, i1, alloc);
        let ghost low = self@;
        let mut new_entry = Entry::default();
        new_entry.as_page();
        new_entry.set_flags(r, w, x, u);
        new_entry.set_oa(paddr);
        new_entry.set_attr(attr);
        new_entry.set_af();
        self.write_page(s0, i0, new_entry);
        proof {
            let before = old(self)@;
            let after = self@;
            assert(new_entry == leaf_entry(paddr, w, x, u, attr));
            lemma_leaf_bits(paddr, w, x, u, attr);
            mid.lemma_extended_twice(low, after);
            before.lemma_extended_twice(mid, after);
            assert(after.below(alloc.position())) by {
                assert forall|j: int| 0 <= j < after.tables.len() implies (
                #[trigger] after.tables[j]).base + PAGE_SIZE <= alloc.position() by {
                    assert(low.tables[j].base == after.tables[j].base);
                }
            }
            // The tables that were made.
            assert(before.entry_for(table, 2, vaddr) == before.tables[s2 as int].entries[i2 as int]);
            if before.tables[s2 as int].entries[i2 as int].pointer() {
                assert(mid == before);
                before.lemma_slot(s1 as int);
                assert(before.entry_for(
                    before.tables[s2 as int].entries[i2 as int].frame(),
                    1,
                    vaddr,
                ) == mid.tables[s1 as int].entries[i1 as int]);
            } else {
                assert(mid.tables[s1 as int].entries[i1 as int].block());
            }
            // The path from the root to the new leaf.
            assert(mid.tables[s2 as int].level == 2);
            assert(low.tables[s2 as int].level == 2);
            assert(low.tables[s1 as int].level == 1);
            assert(after.tables[s2 as int].entries[i2 as int]
                == mid.tables[s2 as int].entries[i2 as int]) by {
                assert(low.tables[s2 as int].entries[i2 as int]
                    == mid.tables[s2 as int].entries[i2 as int]);
            }
            assert(after.tables[s2 as int].entries[i2 as int].frame()
                == after.tables[s1 as int].base) by {
                assert(mid.tables[s1 as int].base == low.tables[s1 as int].base);
            }
            assert(after.tables[s2 as int].base == table) by {
                assert(mid.tables[s2 as int].base == before.tables[s2 as int].base);
                assert(low.tables[s2 as int].base == mid.tables[s2 as int].base);
            }
            after.lemma_path(table, vaddr, s2 as int, s1 as int, s0 as int);
            before.lemma_map_keeps_pages(
                mid,
                low,
                after,
                table,
                vaddr,
                s2 as int,
                s1 as int,
                s0 as int,
            );
            assert(before.map_steps(mid, low, after, table, vaddr, s2 as int, s1 as int, s0 as int));
            before.lemma_map_keeps_walks(
                mid,
                low,
                after,
                table,
                vaddr,
                s2 as int,
                s1 as int,
                s0 as int,
            );
        }
        Ok(())
    }
}

/// A page descriptor is in use, whatever it maps.
proof fn lemma_leaf_bits(paddr: u64, w: bool, x: bool, u: bool, attr: u64)
    by (bit_vector)
    ensures
        leaf_entry(paddr, w, x, u, attr).valid(),
{
}

/// A frame at a page boundary gives a page-aligned address itself.
proof fn lemma_translate_page(frame: u64, vaddr: u64)
    by (bit_vector)
    requires
        frame % 4096 == 0,
        vaddr % 4096 == 0,
    ensures
        (frame & !(((1u64 << 12) - 1) as u64)) + (vaddr & (((1u64 << 12) - 1) as u64)) == frame,
{
}

/// What `map` leaves behind: the translation of the page is the frame, and
/// the descriptor that the walk ends in holds exactly the permissions and
/// the memory attribute that were asked for.
pub open spec fn mapped(
    v: AddressSpaces,
    root: u64,
    paddr: u64,
    vaddr: u64,
    w: bool,
    x: bool,
    u: bool,
    attr: u64,
) -> bool {
    &&& v.walk(root, vaddr) == Ok::<u64, VMError>(paddr)
    &&& v.page_entry(root, vaddr) matches Some(e)
    &&& e.valid()
    &&& e.frame() == paddr
    &&& e.writable() == w
    &&& e.executable() == x
    &&& e.user() == u
    &&& e.attr() == attr
    &&& e.accessed()
}

/// The memory attribute of the page at `paddr`: device memory inside the
/// peripheral window, normal cacheable memory elsewhere.
pub open spec fn attr_of(paddr: u64) -> u64 {
    if MMIO_BASE <= paddr < MMIO_BASE + MMIO_SIZE {
        PTE_DEVICE
    } else {
        PTE_NORMAL_CACHEABLE
    }
}

/// Where the walk for a page-aligned `vaddr` ends in the descriptor that
/// `map` writes for a page-aligned `paddr` below the physical limit, the
/// page is mapped to `paddr` with the permissions asked for.
pub proof fn lemma_mapped(
    v: AddressSpaces,
    root: u64,
    paddr: u64,
    vaddr: u64,
    w: bool,
    x: bool,
    u: bool,
    attr: u64,
)
    requires
        paddr % PAGE_SIZE == 0,
        vaddr % PAGE_SIZE == 0,
        paddr < PHYS_LIMIT,
        attr == PTE_NORMAL_NON_CACHEABLE || attr == PTE_NORMAL_CACHEABLE || attr == PTE_DEVICE,
        v.page_entry(root, vaddr) == Some(leaf_entry(paddr, w, x, u, attr)),
        v.walk(root, vaddr) == Ok::<u64, VMError>(
            translate(leaf_entry(paddr, w, x, u, attr).frame(), vaddr, 0),
        ),
    ensures
        mapped(v, root, paddr, vaddr, w, x, u, attr),
{
    lemma_leaf_entry(paddr, w, x, u, attr);
    lemma_translate_page(paddr, vaddr);
    assert(span(0) == 1u64 << 12) by {
        assert(((12 + 9 * 0) as u64) == 12u64);
    }
}

/// A page that is mapped stays mapped, to the same frame with the same
/// permissions, when another page is mapped.
pub proof fn lemma_mapped_kept(
    before: AddressSpaces,
    after: AddressSpaces,
    root: u64,
    vaddr: u64,
    root2: u64,
    paddr2: u64,
    vaddr2: u64,
    w: bool,
    x: bool,
    u: bool,
    attr: u64,
)
    requires
        before.pages_kept(after, root, vaddr),
        before.has_table_at(root2, 2),
        mapped(before, root2, paddr2, vaddr2, w, x, u, attr),
        !(root2 == root && AddressSpaces::same_page(vaddr, vaddr2)),
    ensures
        mapped(after, root2, paddr2, vaddr2, w, x, u, attr),
{
    assert(before.page_entry(root2, vaddr2) is Some);
}

/// What the processor has to be told to switch the translation on.
#[derive(Copy, Clone, PartialEq, Eq, Structural)]
pub struct Activation {
    /// The value to write to `tcr_el1`.
    pub tcr_el1: u64,
    /// The value to write to `mair_el1`.
    pub mair_el1: u64,
    /// The value to write to `ttbr0_el1`, after the translation cache was
    /// invalidated.
    pub ttbr0_el1: u64,
    /// The value to write to `sctlr_el1`, last.
    pub sctlr_el1: u64,
}

/// The value of `tcr_el1`: 39-bit regions, write-back cacheable walks,
/// inner shareable, no walks through `ttbr1_el1`.
pub const TCR_EL1: u64 = 0x0000_0000_0099_3519;

/// The value of `sctlr_el1`: translation, data cache and instruction cache
/// switched on.
pub const SCTLR_EL1: u64 = 0x0000_0000_0000_1005;

impl VMManager {
    /// The memory attribute of the page at `paddr`.
    pub fn get_attr(&self, paddr: u64) -> (attr: u64)
        ensures
            attr == attr_of(paddr),
    {
        let mut attr = PTE_NORMAL_CACHEABLE;
        if MMIO_BASE <= paddr && paddr < (MMIO_BASE + MMIO_SIZE) {
            attr = PTE_DEVICE;
        }
        attr
    }

    /// Maps the page at `vaddr` to the frame at `paddr` in the address space
    /// `name`, with the given permissions and the memory attribute that
    /// belongs to `paddr`. Refused, with nothing changed, unless both
    /// addresses are multiples of the page size.
    pub fn map(
        &mut self,
        name: &str,
        paddr: u64,
        vaddr: u64,
        r: bool,
        w: bool,
        x: bool,
        u: bool,
        alloc: &mut WaterMarkAllocator,
    ) -> (res: Result<(), VMError>)
        requires
            r,
            old(self)@.wf(),
            old(self)@.below(old(alloc).position()),
            old(self)@.roots.contains_key(name@),
            old(alloc).fits_pages(2),
            old(alloc).end() <= PHYS_LIMIT,
        ensures
            res == (if paddr % PAGE_SIZE == 0 && vaddr % PAGE_SIZE == 0 {
                Ok::<(), VMError>(())
            } else {
                Err::<(), VMError>(VMError::Misaligned)
            }),
            res is Err ==> final(self)@ == old(self)@ && *final(alloc) == *old(alloc),
            final(self)@.wf(),
            final(self)@.below(final(alloc).position()),
            final(self)@.roots == old(self)@.roots,
            old(self)@.extended_by(final(self)@),
            res is Ok ==> final(self)@.tables.len() == old(self)@.tables.len() + old(
                self,
            )@.tables_needed(old(self)@.roots[name@], vaddr),
            final(alloc).end() == old(alloc).end(),
            final(alloc).position() == (if final(self)@.tables.len() == old(self)@.tables.len() {
                old(alloc).position() as int
            } else {
                old(alloc).next_start(4096) + 4096 * (final(self)@.tables.len() - old(
                    self,
                )@.tables.len())
            }),
            res is Ok ==> final(self)@.page_entry(old(self)@.roots[name@], vaddr) == Some(
                leaf_entry(paddr, w, x, u, attr_of(paddr)),
            ),
            res is Ok ==> old(self)@.pages_kept(final(self)@, old(self)@.roots[name@], vaddr),
            res is Ok ==> old(self)@.walks_kept(final(self)@, old(self)@.roots[name@], vaddr),
            res is Ok && paddr < PHYS_LIMIT ==> mapped(
                final(self)@,
                old(self)@.roots[name@],
                paddr,
                vaddr,
                w,
                x,
                u,
                attr_of(paddr),
            ),
    {
        if paddr & 0xfff != 0 || vaddr & 0xfff != 0 {
            proof {
                lemma_low_bits(paddr);
                lemma_low_bits(vaddr);
            }
            return Err(VMError::Misaligned);
        }
        proof {
            lemma_low_bits(paddr);
            lemma_low_bits(vaddr);
        }
        let table = self.get_table(name);
        let attr = self.get_attr(paddr);
        let _ = self.map_page(table, paddr, vaddr, r, w, x, u, attr, alloc);
        proof {
            if paddr < PHYS_LIMIT {
                lemma_mapped(self@, table, paddr, vaddr, w, x, u, attr);
            }
        }
        Ok(())
    }
}

/// Page `k` of the peripheral window.
pub open spec fn mmio_page(k: int) -> u64 {
    (MMIO_BASE + 4096 * k) as u64
}

/// Where the pages of the peripheral window fall in the tables: all under
/// entry 0 of the root, 512 to a table of level 0, and no two in one place.
proof fn lemma_mmio_pages(k: u64, j: u64, page: u64)
    by (bit_vector)
    requires
        k < 4096,
        j < 4096,
        page == 0x3f00_0000u64 + 4096u64 * k,
    ensures
        (page >> 30) & 0x1ff == 0,
        (page >> 21) & 0x1ff == (504u64 + k / 512u64) as u64,
        (page >> 12) & 0x1ff == (k % 512u64) as u64,
        page % 4096 == 0,
        page < 0x4000_0000,
        k / 512u64 == j / 512u64 && k % 512u64 == j % 512u64 ==> k == j,
{
}

/// The address, cut to the 39 bits that the tables look at, lies outside
/// the peripheral window.
pub open spec fn outside_mmio(vaddr: u64) -> bool {
    !(MMIO_BASE <= (vaddr & 0x7f_ffff_ffff) < MMIO_BASE + MMIO_SIZE)
}

/// An address outside the peripheral window shares its place in the tables
/// with no page of the window.
proof fn lemma_outside_mmio(vaddr: u64, k: u64, page: u64)
    by (bit_vector)
    requires
        k < 4096,
        page == 0x3f00_0000u64 + 4096u64 * k,
        !(0x3f00_0000u64 <= (vaddr & 0x7f_ffff_ffff) && (vaddr & 0x7f_ffff_ffff) < 0x4000_0000u64),
    ensures
        (page >> 30) & 0x1ff != (vaddr >> 30) & 0x1ff || (page >> 21) & 0x1ff != (vaddr >> 21)
            & 0x1ff || (page >> 12) & 0x1ff != (vaddr >> 12) & 0x1ff,
{
}

/// The register values add up.
proof fn lemma_activation_bits()
    by (bit_vector)
    ensures
        (((((0u64 | 0x19) | (0x19u64 << 16)) | (0b1u64 << 8)) | (0b1u64 << 10)) | (0b11u64 << 12))
            | (0b1u64 << 23) == 0x0099_3519u64,
        ((0u64 | (0b1u64 << 0)) | (0b1u64 << 2)) | (0b1u64 << 12) == 0x1005u64,
{
}

impl VMManager {
    /// Maps every page of the peripheral window to itself in the address
    /// space rooted at `table`, as device memory, readable and writable in
    /// privileged mode.
    pub fn map_device_memory(&mut self, table: u64, alloc: &mut WaterMarkAllocator) -> (res: Result<
        (),
        VMError,
    >)
        requires
            old(self)@.wf(),
            old(self)@.below(old(alloc).position()),
            old(self)@.has_table_at(table, 2),
            old(alloc).fits_pages(11),
            old(alloc).end() <= PHYS_LIMIT,
        ensures
            res is Ok,
            final(self)@.wf(),
            final(self)@.below(final(alloc).position()),
            final(self)@.roots == old(self)@.roots,
            old(self)@.extended_by(final(self)@),
            final(self)@.tables.len() <= old(self)@.tables.len() + 9,
            final(alloc).end() == old(alloc).end(),
            final(alloc).position() == (if final(self)@.tables.len() == old(self)@.tables.len() {
                old(alloc).position() as int
            } else {
                old(alloc).next_start(4096) + 4096 * (final(self)@.tables.len() - old(
                    self,
                )@.tables.len())
            }),
            forall|k: int|
                0 <= k < 4096 ==> #[trigger] mapped(
                    final(self)@,
                    table,
                    mmio_page(k),
                    mmio_page(k),
                    true,
                    false,
                    false,
                    PTE_DEVICE,
                ),
            forall|vaddr: u64|
                (#[trigger] old(self)@.walk(table, vaddr)) is Ok && old(self)@.blocks_aligned(
                    table,
                    vaddr,
                ) && outside_mmio(vaddr) ==> final(self)@.walk(table, vaddr) == old(self)@.walk(
                    table,
                    vaddr,
                ),
    {
        let mut k: u64 = 0;
        proof {
            crate::allocator::watermark::lemma_align_up(old(alloc).position() as int, 4096);
        }
        while k < 4096
            invariant
                k <= 4096,
                self@.wf(),
                self@.below(alloc.position()),
                self@.has_table_at(table, 2),
                self@.roots == old(self)@.roots,
                old(self)@.extended_by(self@),
                alloc.end() == old(alloc).end(),
                alloc.end() <= PHYS_LIMIT,
                alloc.fits_pages(2 + (if k == 0 { 9int } else { 8 - (k + 511) / 512 })),
                self@.tables.len() <= old(self)@.tables.len() + (if k == 0 {
                    0int
                } else {
                    1 + (k + 511) / 512
                }),
                alloc.position() == (if self@.tables.len() == old(self)@.tables.len() {
                    old(alloc).position() as int
                } else {
                    old(alloc).next_start(4096) + 4096 * (self@.tables.len() - old(
                        self,
                    )@.tables.len())
                }),
                k > 0 ==> self@.entry_for(table, 2, mmio_page(0)).pointer(),
                k > 0 && k % 512 != 0 ==> self@.tables_needed(table, mmio_page(k as int)) == 0,
                forall|j: int|
                    0 <= j < k ==> #[trigger] mapped(
                        self@,
                        table,
                        mmio_page(j),
                        mmio_page(j),
                        true,
                        false,
                        false,
                        PTE_DEVICE,
                    ),
                forall|vaddr: u64|
                    (#[trigger] old(self)@.walk(table, vaddr)) is Ok && old(self)@.blocks_aligned(
                        table,
                        vaddr,
                    ) && outside_mmio(vaddr) ==> self@.walk(table, vaddr) == old(self)@.walk(
                        table,
                        vaddr,
                    ) && self@.blocks_aligned(table, vaddr),
            decreases 4096 - k,
        {
            let ghost before = self@;
            proof {
                lemma_mmio_pages(k, 0, mmio_page(k as int));
                lemma_mmio_pages(0, 0, mmio_page(0));
                crate::allocator::watermark::lemma_align_up(alloc.position() as int, 4096);
                assert(vpn(mmio_page(k as int), 2) == vpn(mmio_page(0), 2));
                assert(before.entry_for(table, 2, mmio_page(k as int)) == before.entry_for(
                    table,
                    2,
                    mmio_page(0),
                ));
                if k > 0 {
                    assert(before.tables_needed(table, mmio_page(k as int)) <= 1);
                }
            }
            let page = MMIO_BASE + 4096 * k;
            let _ = self.map_page(table, page, page, true, true, false, false, PTE_DEVICE, alloc);
            proof {
                let after = self@;
                crate::allocator::watermark::lemma_align_up(alloc.position() as int, 4096);
                old(self)@.lemma_extended_twice(before, after);
                before.lemma_kept(after, table, 2);
                lemma_mapped(after, table, page, page, true, false, false, PTE_DEVICE);
                assert(after.page_entry(table, page) is Some);
                assert(after.entry_for(table, 2, mmio_page(0)).pointer());
                if (k + 1) % 512 != 0 && k + 1 < 4096 {
                    lemma_mmio_pages((k + 1) as u64, k, mmio_page(k + 1));
                    assert(vpn(mmio_page(k + 1), 2) == vpn(page, 2));
                    assert(vpn(mmio_page(k + 1), 1) == vpn(page, 1));
                    assert(after.tables_needed(table, mmio_page(k + 1)) == 0);
                }
                assert forall|vaddr: u64|
                    (#[trigger] old(self)@.walk(table, vaddr)) is Ok && old(self)@.blocks_aligned(
                        table,
                        vaddr,
                    ) && outside_mmio(vaddr) implies after.walk(table, vaddr) == old(self)@.walk(
                    table,
                    vaddr,
                ) && after.blocks_aligned(table, vaddr) by {
                    lemma_outside_mmio(vaddr, k, page);
                    assert(!AddressSpaces::same_page(page, vaddr));
                    assert(before.walk(table, vaddr) is Ok);
                }
                assert forall|j: int| 0 <= j < k + 1 implies #[trigger] mapped(
                    after,
                    table,
                    mmio_page(j),
                    mmio_page(j),
                    true,
                    false,
                    false,
                    PTE_DEVICE,
                ) by {
                    if j < k {
                        lemma_mmio_pages(k, j as u64, mmio_page(k as int));
                        lemma_mmio_pages(j as u64, k, mmio_page(j));
                        assert(!AddressSpaces::same_page(page, mmio_page(j)));
                        lemma_mapped_kept(
                            before,
                            after,
                            table,
                            page,
                            table,
                            mmio_page(j),
                            mmio_page(j),
                            true,
                            false,
                            false,
                            PTE_DEVICE,
                        );
                    }
                }
            }
            k += 1;
        }
        Ok(())
    }

    /// Builds the kernel address space: a fresh root registered as
    /// `"kernel"`, identity filled with 1 GiB blocks, and the peripheral
    /// window mapped as device memory. The result holds the register
    /// values that switch the translation on.
    pub fn init(&mut self, alloc: &mut WaterMarkAllocator) -> (regs: Activation)
        requires
            old(self)@.wf(),
            old(self)@.below(old(alloc).position()),
            old(alloc).fits_pages(12),
            old(alloc).end() <= PHYS_LIMIT,
        ensures
            final(self)@.wf(),
            final(self)@.below(final(alloc).position()),
            final(self)@.roots == old(self)@.roots.insert(
                "kernel"@,
                old(alloc).next_start(4096) as u64,
            ),
            old(self)@.extended_by(final(self)@),
            final(alloc).end() == old(alloc).end(),
            regs == (Activation {
                tcr_el1: TCR_EL1,
                mair_el1: MAIR_EL1,
                ttbr0_el1: old(alloc).next_start(4096) as u64,
                sctlr_el1: SCTLR_EL1,
            }),
            forall|k: int|
                0 <= k < 4096 ==> #[trigger] mapped(
                    final(self)@,
                    old(alloc).next_start(4096) as u64,
                    mmio_page(k),
                    mmio_page(k),
                    true,
                    false,
                    false,
                    PTE_DEVICE,
                ),
            forall|vaddr: u64|
                vaddr < 0x80_0000_0000 && outside_mmio(vaddr) ==> #[trigger] final(self)@.walk(
                    old(alloc).next_start(4096) as u64,
                    vaddr,
                ) == Ok::<u64, VMError>(vaddr),
    {
        proof {
            crate::allocator::watermark::lemma_align_up(old(alloc).position() as int, 4096);
            lemma_activation_bits();
        }
        let root_table = self.create_table(alloc);
        self.set_table("kernel".to_owned(), root_table);
        let ghost created = self@;
        proof {
            created.lemma_found(root_table, 2);
        }
        let slot = self.find(root_table).unwrap();
        self.fill(slot, 2, 0);
        let ghost filled = self@;
        proof {
            assert forall|j: int| 0 <= j < filled.tables.len() implies (
            #[trigger] filled.tables[j]).base == created.tables[j].base && filled.tables[j].level
                == created.tables[j].level by {
                if j != slot {
                    assert(filled.tables[j] == created.tables[j]);
                }
            }
            assert(filled.tables[slot as int].base == root_table && filled.tables[slot as int].level
                == 2);
            assert(filled.below(alloc.position())) by {
                assert forall|j: int| 0 <= j < filled.tables.len() implies (
                #[trigger] filled.tables[j]).base + PAGE_SIZE <= alloc.position() by {
                    assert(created.tables[j].base + PAGE_SIZE <= alloc.position());
                }
            }
            crate::allocator::watermark::lemma_align_up(alloc.position() as int, 4096);
        }
        let _ = self.map_device_memory(root_table, alloc);
        proof {
            lemma_spans();
            assert forall|vaddr: u64|
                vaddr < 0x80_0000_0000 && outside_mmio(vaddr) implies #[trigger] self@.walk(
                root_table,
                vaddr,
            ) == Ok::<u64, VMError>(vaddr) by {
                lemma_walk_bits(vaddr, 0, 2);
                lemma_identity_block(vaddr);
                filled.lemma_slot(slot as int);
                let k = vpn(vaddr, 2);
                let e = filled.tables[slot as int].entries[k];
                assert(e == identity_entry(k, 2, 0)) by {
                    lemma_identity_leaf(0, 0, 0);
                }
                assert(filled.entry_for(root_table, 2, vaddr) == e);
                assert(filled.walk_from(root_table, 2, vaddr) == Ok::<u64, VMError>(
                    translate(e.frame(), vaddr, 2),
                ));
                assert(filled.walk(root_table, vaddr) == Ok::<u64, VMError>(vaddr));
                assert(filled.blocks_aligned(root_table, vaddr));
            }
            assert(old(self)@.extended_by(self@)) by {
                assert forall|j: int| 0 <= j < old(self)@.tables.len() implies (
                #[trigger] self@.tables[j]).base == old(self)@.tables[j].base
                    && self@.tables[j].level == old(self)@.tables[j].level by {
                    assert(created.tables[j].base == old(self)@.tables[j].base);
                    assert(filled.tables[j].base == created.tables[j].base);
                }
            }
        }
        let mut tcr_el1: u64 = 0;
        tcr_el1 |= 0x19;
        tcr_el1 |= 0x19u64 << 16;
        tcr_el1 |= 0b1u64 << 8;
        tcr_el1 |= 0b1u64 << 10;
        tcr_el1 |= 0b11u64 << 12;
        tcr_el1 |= 0b1u64 << 23;
        let mut sctlr_el1: u64 = 0;
        sctlr_el1 |= 0b1u64 << 0;
        sctlr_el1 |= 0b1u64 << 2;
        sctlr_el1 |= 0b1u64 << 12;
        Activation { tcr_el1, mair_el1: MAIR_EL1, ttbr0_el1: root_table, sctlr_el1 }
    }
}

/// A multiple of 4096 is a number whose low 12 bits are zero.
proof fn lemma_low_bits(addr: u64)
    by (bit_vector)
    ensures
        (addr & 0xfff == 0) <==> (addr % 4096 == 0),
{
}

/// The table that splits a block gives every address under the block the
/// translation the block gave it, where the block was aligned to its size.
/// `bits` is the descriptor of the block, `level` the level of the table
/// that splits it.
proof fn lemma_split_block(bits: u64, vaddr: u64, level: u64)
    by (bit_vector)
    requires
        level <= 1,
        (bits & 0x7f_ffff_f000u64) % (1u64 << (21 + 9 * level)) == 0,
    ensures
        ({
            let block = bits & 0x7f_ffff_f000u64;
            let upper = ((1u64 << (21 + 9 * level)) - 1) as u64;
            let lower = ((1u64 << (12 + 9 * level)) - 1) as u64;
            let index = (vaddr >> (12 + 9 * level)) & 0x1ff;
            let part = identity_entry(index as int, level as nat, bits & 0x7f_ffff_f000u64);
            &&& part.valid()
            &&& part.block()
            &&& (part.frame() & !lower) + (vaddr & lower) == (block & !upper) + (vaddr & upper)
            &&& part.frame() % (1u64 << (12 + 9 * level)) == 0
        }),
{
}

/// The output address that a table inherits when it takes the place of the
/// descriptor `e`: that of a block, and none where nothing was mapped.
pub open spec fn fill_oa(e: Entry) -> u64 {
    if !e.valid() {
        0
    } else {
        e.frame()
    }
}

/// In a root filled with identity blocks, an address below 2^39 lies in the
/// block of the entry it selects, and that block gives it itself.
proof fn lemma_identity_block(vaddr: u64)
    by (bit_vector)
    requires
        vaddr < 0x80_0000_0000,
    ensures
        ({
            let e = identity_entry(((vaddr >> 30) & 0x1ff) as int, 2, 0);
            let mask = ((1u64 << 30) - 1) as u64;
            &&& e.valid()
            &&& e.block()
            &&& (e.frame() & !mask) + (vaddr & mask) == vaddr
            &&& e.frame() % (1u64 << 30) == 0
        }),
{
}

/// A block at `level` holds an address that is a multiple of its size.
pub open spec fn block_aligned(e: Entry, level: nat) -> bool {
    e.valid() && e.block() ==> e.frame() % span(level) == 0
}

impl AddressSpaces {
    /// Every block that the walk for `vaddr` meets above level 0 is aligned
    /// to its size.
    pub open spec fn blocks_aligned(self, root: u64, vaddr: u64) -> bool {
        let e2 = self.entry_for(root, 2, vaddr);
        let e1 = self.entry_for(e2.frame(), 1, vaddr);
        &&& self.has_table(root) ==> block_aligned(e2, 2)
        &&& self.has_table(root) && e2.pointer() && self.has_table(e2.frame()) ==> block_aligned(
            e1,
            1,
        )
    }

    /// Every address that `self` translates through aligned blocks, other
    /// than the page of `vaddr` under `root`, has in `later` the translation
    /// it had, again through aligned blocks.
    pub open spec fn walks_kept(self, later: AddressSpaces, root: u64, vaddr: u64) -> bool {
        forall|root2: u64, vaddr2: u64|
            (#[trigger] self.walk(root2, vaddr2)) is Ok && self.has_table_at(root2, 2)
                && self.blocks_aligned(root2, vaddr2) && !(root2 == root && Self::same_page(
                vaddr,
                vaddr2,
            )) ==> later.walk(root2, vaddr2) == self.walk(root2, vaddr2) && later.blocks_aligned(
                root2,
                vaddr2,
            )
    }

    /// What mapping the page of `vaddr` under `root` does, step by step:
    /// from `self` one step down to `mid`, another to `low`, and the write of
    /// the leaf to `later`, through the tables `s2`, `s1` and `s0`.
    pub open spec fn map_steps(
        self,
        mid: AddressSpaces,
        low: AddressSpaces,
        later: AddressSpaces,
        root: u64,
        vaddr: u64,
        s2: int,
        s1: int,
        s0: int,
    ) -> bool {
        let i2 = vpn(vaddr, 2);
        let i1 = vpn(vaddr, 1);
        let i0 = vpn(vaddr, 0);
        &&& self.wf()
        &&& later.tables_wf()
        &&& self.extended_by(mid)
        &&& mid.extended_by(low)
        &&& low.extended_by(later)
        &&& 0 <= s2 < self.tables.len()
        &&& self.tables[s2].base == root
        &&& self.tables[s2].level == 2
        &&& 0 <= s1 < mid.tables.len()
        &&& mid.tables[s1].level == 1
        &&& 0 <= s0 < low.tables.len()
        &&& low.tables[s0].level == 0
        &&& self.entries_kept_but(mid, s2, i2)
        &&& self.tables[s2].entries[i2].pointer() ==> mid == self
        &&& !self.tables[s2].entries[i2].pointer() ==> s1 == self.tables.len() && forall|k: int|
            0 <= k < 512 ==> #[trigger] mid.tables[s1].entries[k] == identity_entry(k,
                1,
                fill_oa(self.tables[s2].entries[i2]),
            )
        &&& mid.tables[s2].entries[i2].pointer()
        &&& mid.tables[s2].entries[i2].frame() == mid.tables[s1].base
        &&& mid.entries_kept_but(low, s1, i1)
        &&& mid.tables[s1].entries[i1].pointer() ==> low == mid
        &&& !mid.tables[s1].entries[i1].pointer() ==> s0 == mid.tables.len() && forall|k: int|
            0 <= k < 512 ==> #[trigger] low.tables[s0].entries[k] == identity_entry(k,
                0,
                fill_oa(mid.tables[s1].entries[i1]),
            )
        &&& low.tables[s1].entries[i1].pointer()
        &&& low.tables[s1].entries[i1].frame() == low.tables[s0].base
        &&& low.entries_kept_but(later, s0, i0)
    }

    /// Splitting blocks on the way to one page leaves every other address
    /// with the translation it had.
    pub proof fn lemma_walk_kept(
        self,
        mid: AddressSpaces,
        low: AddressSpaces,
        later: AddressSpaces,
        root: u64,
        vaddr: u64,
        s2: int,
        s1: int,
        s0: int,
        root2: u64,
        vaddr2: u64,
    )
        requires
            self.map_steps(mid, low, later, root, vaddr, s2, s1, s0),
            self.pages_kept(later, root, vaddr),
            self.walk(root2, vaddr2) is Ok,
            self.has_table_at(root2, 2),
            self.blocks_aligned(root2, vaddr2),
            !(root2 == root && Self::same_page(vaddr, vaddr2)),
        ensures
            later.walk(root2, vaddr2) == self.walk(root2, vaddr2),
            later.blocks_aligned(root2, vaddr2),
    {
        lemma_walk_bits(vaddr2, 0, 0);
        lemma_walk_bits(vaddr2, 0, 1);
        lemma_walk_bits(vaddr2, 0, 2);
        lemma_walk_bits(vaddr, 0, 0);
        lemma_walk_bits(vaddr, 0, 1);
        lemma_walk_bits(vaddr, 0, 2);
        lemma_spans();
        let i2 = vpn(vaddr, 2);
        let i1 = vpn(vaddr, 1);
        let i0 = vpn(vaddr, 0);
        let j2 = vpn(vaddr2, 2);
        let j1 = vpn(vaddr2, 1);
        let j0 = vpn(vaddr2, 0);
        self.lemma_extended_twice(mid, low);
        self.lemma_extended_twice(low, later);
        mid.lemma_extended_twice(low, later);
        self.lemma_found(root2, 2);
        let t2 = self.slot(root2);
        let e2 = self.tables[t2].entries[j2];
        assert(e2 == self.entry_for(root2, 2, vaddr2));
        assert(self.walk_from(root2, 2, vaddr2) is Ok);
        assert(e2.valid());
        later.lemma_slot(t2);
        later.lemma_slot(s2);
        later.lemma_slot(s1);
        later.lemma_slot(s0);
        assert(later.tables[s2].level == 2 && later.tables[s1].level == 1 && later.tables[s0].level
            == 0);
        assert(later.tables[t2].level == 2);
        // what the path of `vaddr` holds in the end
        let p2 = later.tables[s2].entries[i2];
        let p1 = later.tables[s1].entries[i1];
        assert(p2 == mid.tables[s2].entries[i2]) by {
            assert(low.tables[s2].entries[i2] == mid.tables[s2].entries[i2]);
            assert(later.tables[s2].entries[i2] == low.tables[s2].entries[i2]);
        }
        assert(p1 == low.tables[s1].entries[i1]);
        assert(p2.frame() == later.tables[s1].base) by {
            assert(mid.tables[s1].base == later.tables[s1].base);
        }
        assert(p1.frame() == later.tables[s0].base);
        if e2.block() {
            if t2 == s2 && j2 == i2 {
                // the block at level 2 was split
                assert(root2 == root);
                assert(!self.tables[s2].entries[i2].pointer());
                assert(fill_oa(e2) == e2.frame());
                assert(later.entry_for(root2, 2, vaddr2) == p2);
                if j1 != i1 {
                    let part = later.tables[s1].entries[j1];
                    assert(part == mid.tables[s1].entries[j1]) by {
                        assert(low.tables[s1].entries[j1] == mid.tables[s1].entries[j1]);
                        assert(later.tables[s1].entries[j1] == low.tables[s1].entries[j1]);
                    }
                    assert(part == identity_entry(j1, 1, e2.frame()));
                    lemma_split_block(e2.0, vaddr2, 1);
                    assert(later.entry_for(p2.frame(), 1, vaddr2) == part);
                    assert(later.walk_from(p2.frame(), 1, vaddr2) == Ok::<u64, VMError>(
                        translate(part.frame(), vaddr2, 1),
                    ));
                    assert(later.walk_from(root2, 2, vaddr2) == later.walk_from(
                        p2.frame(),
                        1,
                        vaddr2,
                    ));
                } else {
                    assert(j0 != i0);
                    let first = mid.tables[s1].entries[i1];
                    assert(first == identity_entry(i1, 1, e2.frame()));
                    lemma_split_block(e2.0, vaddr2, 1);
                    assert(!first.pointer());
                    assert(fill_oa(first) == first.frame());
                    let part = later.tables[s0].entries[j0];
                    assert(part == low.tables[s0].entries[j0]);
                    assert(part == identity_entry(j0, 0, first.frame()));
                    lemma_split_block(first.0, vaddr2, 0);
                    assert(later.entry_for(p2.frame(), 1, vaddr2) == p1);
                    assert(later.entry_for(p1.frame(), 0, vaddr2) == part);
                    assert(later.walk_from(p1.frame(), 0, vaddr2) == Ok::<u64, VMError>(
                        translate(part.frame(), vaddr2, 0),
                    ));
                    assert(later.walk_from(p2.frame(), 1, vaddr2) == later.walk_from(
                        p1.frame(),
                        0,
                        vaddr2,
                    ));
                    assert(later.walk_from(root2, 2, vaddr2) == later.walk_from(
                        p2.frame(),
                        1,
                        vaddr2,
                    ));
                }
            } else {
                assert(later.tables[t2].entries[j2] == e2) by {
                    assert(mid.tables[t2].entries[j2] == e2);
                    assert(low.tables[t2].entries[j2] == mid.tables[t2].entries[j2]);
                    assert(later.tables[t2].entries[j2] == low.tables[t2].entries[j2]);
                }
                assert(later.entry_for(root2, 2, vaddr2) == e2);
            }
        } else {
            assert(self.pointer_ok(t2, j2));
            self.lemma_found(e2.frame(), 1);
            let t1 = self.slot(e2.frame());
            let e1 = self.tables[t1].entries[j1];
            assert(e1 == self.entry_for(e2.frame(), 1, vaddr2));
            assert(self.walk_from(root2, 2, vaddr2) == self.walk_from(e2.frame(), 1, vaddr2));
            assert(e1.valid());
            assert(self.is_pointer(t2, j2));
            assert(later.tables[t2].entries[j2] == e2) by {
                assert(mid.tables[t2].entries[j2] == e2);
                assert(low.tables[t2].entries[j2] == mid.tables[t2].entries[j2]);
                assert(later.tables[t2].entries[j2] == low.tables[t2].entries[j2]);
            }
            assert(later.entry_for(root2, 2, vaddr2) == e2);
            later.lemma_slot(t1);
            assert(later.tables[t1].level == 1);
            if e1.block() {
                if t1 == s1 && j1 == i1 {
                    // the block at level 1 was split
                    assert(s1 < self.tables.len());
                    assert(self.tables[s2].entries[i2].pointer());
                    assert(mid == self);
                    assert(self.is_pointer(s2, i2));
                    assert(t2 == s2 && j2 == i2);
                    assert(j0 != i0);
                    assert(!mid.tables[s1].entries[i1].pointer());
                    assert(fill_oa(e1) == e1.frame());
                    let part = later.tables[s0].entries[j0];
                    assert(part == low.tables[s0].entries[j0]);
                    assert(part == identity_entry(j0, 0, e1.frame()));
                    lemma_split_block(e1.0, vaddr2, 0);
                    assert(later.entry_for(e2.frame(), 1, vaddr2) == p1);
                    assert(later.entry_for(p1.frame(), 0, vaddr2) == part);
                    assert(later.walk_from(p1.frame(), 0, vaddr2) == Ok::<u64, VMError>(
                        translate(part.frame(), vaddr2, 0),
                    ));
                    assert(later.walk_from(e2.frame(), 1, vaddr2) == later.walk_from(
                        p1.frame(),
                        0,
                        vaddr2,
                    ));
                    assert(later.walk_from(root2, 2, vaddr2) == later.walk_from(
                        e2.frame(),
                        1,
                        vaddr2,
                    ));
                } else {
                    assert(later.tables[t1].entries[j1] == e1) by {
                        assert(mid.tables[t1].entries[j1] == e1);
                        assert(low.tables[t1].entries[j1] == mid.tables[t1].entries[j1]) by {
                            if t1 == s1 {
                                assert(j1 != i1);
                            }
                        }
                        assert(later.tables[t1].entries[j1] == low.tables[t1].entries[j1]);
                    }
                    assert(later.entry_for(e2.frame(), 1, vaddr2) == e1);
                    assert(later.walk_from(root2, 2, vaddr2) == later.walk_from(
                        e2.frame(),
                        1,
                        vaddr2,
                    ));
                }
            } else {
                assert(self.pointer_ok(t1, j1));
                self.lemma_found(e1.frame(), 0);
                assert(self.page_entry(root2, vaddr2) is Some);
                assert(later.page_entry(root2, vaddr2) is Some);
            }
        }
    }
}

impl AddressSpaces {
    /// Mapping a page leaves every other address with the translation it
    /// had.
    pub proof fn lemma_map_keeps_walks(
        self,
        mid: AddressSpaces,
        low: AddressSpaces,
        later: AddressSpaces,
        root: u64,
        vaddr: u64,
        s2: int,
        s1: int,
        s0: int,
    )
        requires
            self.map_steps(mid, low, later, root, vaddr, s2, s1, s0),
            self.pages_kept(later, root, vaddr),
        ensures
            self.walks_kept(later, root, vaddr),
    {
        assert forall|root2: u64, vaddr2: u64|
            (#[trigger] self.walk(root2, vaddr2)) is Ok && self.has_table_at(root2, 2)
                && self.blocks_aligned(root2, vaddr2) && !(root2 == root && Self::same_page(
                vaddr,
                vaddr2,
            )) implies later.walk(root2, vaddr2) == self.walk(root2, vaddr2)
            && later.blocks_aligned(root2, vaddr2) by {
            self.lemma_walk_kept(mid, low, later, root, vaddr, s2, s1, s0, root2, vaddr2);
        }
    }
}

/// The sizes of the blocks.
proof fn lemma_spans()
    ensures
        span(0) == 1u64 << 12u64,
        span(1) == 1u64 << 21u64,
        span(2) == 1u64 << 30u64,
{
    assert(((12 + 9 * 0) as u64) == 12u64);
    assert(((12 + 9 * 1) as u64) == 21u64);
    assert(((12 + 9 * 2) as u64) == 30u64);
}

} // verus!
