//! A bump allocator: one cursor that only moves up.

use vstd::prelude::*;

verus! {

/// `pos` rounded up to the next multiple of `align`.
pub open spec fn align_up(pos: int, align: int) -> int {
    if pos % align == 0 {
        pos
    } else {
        pos + (align - pos % align)
    }
}

/// Hands out memory from a fixed region by advancing a cursor. Nothing is
/// ever reused.
pub struct WaterMarkAllocator {
    current_position: u64,
    heap_end: u64,
}

impl WaterMarkAllocator {
    /// The cursor: every address handed out so far lies below it.
    pub closed spec fn position(&self) -> u64 {
        self.current_position
    }

    /// The end of the region.
    pub closed spec fn end(&self) -> u64 {
        self.heap_end
    }

    /// Where an allocation of `size` bytes aligned to `align` would start.
    pub open spec fn next_start(&self, align: u64) -> int {
        align_up(self.position() as int, align as int)
    }

    /// Whether an allocation of `size` bytes aligned to `align` succeeds.
    pub open spec fn fits(&self, size: u64, align: u64) -> bool {
        self.next_start(align) + size < self.end()
    }

    /// Whether `n` pages can be allocated one after the other.
    pub open spec fn fits_pages(&self, n: int) -> bool {
        self.next_start(4096) + n * 4096 < self.end()
    }

    /// An allocator over `[heap_start, heap_end)`.
    pub fn new(heap_start: u64, heap_end: u64) -> (a: Self)
        ensures
            a.position() == heap_start,
            a.end() == heap_end,
    {
        Self { current_position: heap_start, heap_end }
    }

    /// An allocator over no memory: every allocation fails.
    pub fn empty() -> (a: Self)
        ensures
            a.position() == 0,
            a.end() == 0,
    {
        Self { current_position: 0, heap_end: 0 }
    }

    /// The cursor.
    pub fn current_position(&self) -> (r: u64)
        ensures
            r == self.position(),
    {
        self.current_position
    }

    /// The end of the region.
    pub fn heap_end(&self) -> (r: u64)
        ensures
            r == self.end(),
    {
        self.heap_end
    }

    /// Tests whether an allocation of `size` bytes aligned to `align` succeeds.
    pub fn can_alloc(&self, size: u64, align: u64) -> (r: bool)
        requires
            align > 0,
        ensures
            r == self.fits(size, align),
    {
        let rem: u64 = self.current_position % align;
        let pad: u64 = if rem == 0 { 0 } else { align - rem };
        match self.current_position.checked_add(pad) {
            None => false,
            Some(start) => match start.checked_add(size) {
                None => false,
                Some(next) => next < self.heap_end,
            },
        }
    }

    /// Reserves `size` bytes aligned to `align`: the cursor is rounded up,
    /// the block starts there, and the cursor moves past it. Fails, changing
    /// nothing, when the new cursor would reach the end of the region.
    pub fn allocate(&mut self, size: u64, align: u64) -> (r: Option<u64>)
        requires
            align > 0,
        ensures
            old(self).fits(size, align) ==> r == Some(old(self).next_start(align) as u64)
                && final(self).position() == old(self).next_start(align) + size
                && final(self).end() == old(self).end(),
            !old(self).fits(size, align) ==> r.is_none() && *final(self) == *old(self),
    {
        let rem: u64 = self.current_position % align;
        let pad: u64 = if rem == 0 { 0 } else { align - rem };
        match self.current_position.checked_add(pad) {
            None => None,
            Some(start) => match start.checked_add(size) {
                None => None,
                Some(next) => {
                    if next < self.heap_end {
                        self.current_position = next;
                        Some(start)
                    } else {
                        None
                    }
                },
            },
        }
    }

    /// Gives a block back. The allocator never reuses memory, so nothing
    /// changes.
    pub fn deallocate(&mut self, addr: u64, size: u64, align: u64)
        ensures
            *final(self) == *old(self),
    {
    }
}

/// A block that was handed out starts at a multiple of its alignment, at or
/// after the cursor, and less than one alignment away from it.
pub proof fn lemma_align_up(pos: int, align: int)
    requires
        pos >= 0,
        align > 0,
    ensures
        align_up(pos, align) % align == 0,
        pos <= align_up(pos, align) < pos + align,
{
    vstd::arithmetic::div_mod::lemma_fundamental_div_mod(pos, align);
    vstd::arithmetic::div_mod::lemma_mod_bound(pos, align);
    if pos % align != 0 {
        let q = pos / align;
        assert(pos + (align - pos % align) == align * (q + 1)) by (nonlinear_arith)
            requires
                pos == align * q + pos % align,
        ;
        vstd::arithmetic::div_mod::lemma_mod_multiples_basic(q + 1, align);
        assert((q + 1) * align == align * (q + 1)) by (nonlinear_arith);
    }
}

} // verus!
