//! What the UEFI loader hands to the kernel.

use vstd::prelude::*;

verus! {

/// Bytes in a page.
pub const PAGE_SIZE: usize = 4096;

/// A range of physical memory: from `start` up to, not including, `end`.
#[derive(Copy, Clone, PartialEq, Eq, Structural)]
pub struct MemoryRegion {
    pub start: usize,
    pub end: usize,
}

/// The memory the kernel may use: `len` regions in a table at the address
/// `descriptors`.
#[derive(Copy, Clone, PartialEq, Eq, Structural)]
pub struct MemoryMap {
    pub descriptors: usize,
    pub len: usize,
}

/// The order of the colours in a pixel.
#[derive(Copy, Clone, PartialEq, Eq, Structural)]
pub enum FrameBufferFormat {
    RGB,
    BGR,
}

/// The frame buffer: `height` lines of `stride` pixels at the address
/// `ptr`, of which `width` are visible.
#[derive(Copy, Clone, PartialEq, Eq, Structural)]
pub struct FrameBuffer {
    pub ptr: usize,
    pub width: usize,
    pub height: usize,
    pub stride: usize,
    pub format: FrameBufferFormat,
}

impl FrameBuffer {
    /// The index of the pixel in column `x` of line `y`.
    pub fn pixel_index(&self, x: usize, y: usize) -> (index: usize)
        requires
            x < self.width,
            y < self.height,
            self.width <= self.stride,
            self.height * self.stride <= usize::MAX,
        ensures
            index == y * self.stride + x,
            index < self.height * self.stride,
    {
        assert(y * self.stride + x < self.height * self.stride) by (nonlinear_arith)
            requires
                x < self.stride,
                y < self.height,
        ;
        assert(y * self.stride <= self.height * self.stride) by (nonlinear_arith)
            requires
                y < self.height,
        ;
        y * self.stride + x
    }
}

/// `n` rounded up to a multiple of `round`.
pub fn round_up(n: usize, round: usize) -> (r: usize)
    requires
        round > 0,
        n + round <= usize::MAX,
    ensures
        r % round == 0,
        n <= r < n + round,
        r == ((n + (round - 1)) / (round as int)) * round,
{
    let q = (n + (round - 1)) / round;
    proof {
        let m = (n + (round - 1)) as int;
        let d = round as int;
        vstd::arithmetic::div_mod::lemma_fundamental_div_mod(m, d);
        vstd::arithmetic::div_mod::lemma_mod_bound(m, d);
        assert(d * (m / d) == (m / d) * d) by (nonlinear_arith);
        vstd::arithmetic::div_mod::lemma_mod_multiples_basic(m / d, d);
    }
    q * round
}

/// The number of pages that hold `bytes` bytes.
pub fn pages_for(bytes: usize) -> (pages: usize)
    requires
        bytes + PAGE_SIZE <= usize::MAX,
    ensures
        pages * PAGE_SIZE >= bytes,
        pages * PAGE_SIZE < bytes + PAGE_SIZE,
{
    round_up(bytes, PAGE_SIZE) / PAGE_SIZE
}

} // verus!
