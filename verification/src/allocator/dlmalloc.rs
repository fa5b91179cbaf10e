//! The source of memory for a general heap: it hands out the kernel heap
//! from its start, piece after piece, and takes nothing back.

use vstd::prelude::*;

verus! {

/// Bytes in the unit in which the heap asks for memory.
pub const SYSTEM_PAGE_SIZE: usize = 64 * 1024;

/// Hands out the memory from the start of the heap on.
pub struct System {
    pos: u64,
}

/// A piece of memory that was handed out: its address, its size, and flags.
/// A piece at address 0 is no memory.
#[derive(Copy, Clone, PartialEq, Eq, Structural)]
pub struct Chunk {
    pub addr: u64,
    pub size: u64,
    pub flags: u32,
}

impl System {
    /// The address of the next piece; 0 before the first piece.
    pub closed spec fn position(&self) -> u64 {
        self.pos
    }

    /// A source that has handed out nothing.
    pub fn new() -> (s: Self)
        ensures
            s.position() == 0,
    {
        Self { pos: 0 }
    }

    /// Hands out the next `size` bytes. The first piece starts at
    /// `heap_start`. Where the address space ends before the piece does,
    /// there is no memory, and nothing changes.
    pub fn allocate(&mut self, size: u64, heap_start: u64) -> (c: Chunk)
        ensures
            ({
                let start = if old(self).position() == 0 {
                    heap_start
                } else {
                    old(self).position()
                };
                if start + size <= u64::MAX && start != u64::MAX {
                    c == (Chunk { addr: start, size, flags: 0 }) && final(self).position() == start
                        + size
                } else {
                    c == (Chunk { addr: 0, size: 0, flags: 0 }) && final(self).position() == old(
                        self,
                    ).position()
                }
            }),
    {
        let start = if self.pos == 0 { heap_start } else { self.pos };
        if start == u64::MAX {
            return Chunk { addr: 0, size: 0, flags: 0 };
        }
        match start.checked_add(size) {
            None => Chunk { addr: 0, size: 0, flags: 0 },
            Some(next) => {
                self.pos = next;
                Chunk { addr: start, size, flags: 0 }
            },
        }
    }

    /// Memory is never moved: the result is 0, no memory.
    pub fn remap(&self, ptr: u64, oldsize: u64, newsize: u64, can_move: bool) -> (r: u64)
        ensures
            r == 0,
    {
        0
    }

    /// No part of a piece is taken back.
    pub fn free_part(&self, ptr: u64, oldsize: u64, newsize: u64) -> (r: bool)
        ensures
            !r,
    {
        false
    }

    /// No piece is taken back.
    pub fn free(&self, ptr: u64, size: u64) -> (r: bool)
        ensures
            !r,
    {
        false
    }

    /// No part of a piece can be released.
    pub fn can_release_part(&self, flags: u32) -> (r: bool)
        ensures
            !r,
    {
        false
    }

    /// The memory that is handed out is zeroed.
    pub fn allocates_zeros(&self) -> (r: bool)
        ensures
            r,
    {
        true
    }

    /// Bytes in the unit in which the heap asks for memory.
    pub fn page_size(&self) -> (r: usize)
        ensures
            r == SYSTEM_PAGE_SIZE,
    {
        SYSTEM_PAGE_SIZE
    }
}

} // verus!
