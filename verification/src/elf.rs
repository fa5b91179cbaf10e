//! Executable images: what the kernel reads out of an ELF file, and where
//! the segments of an image go in memory.
//!
//! The file is parsed by `goblin`. The kernel looks at the entry point and
//! at the program headers only.

use crate::task::MemoryRegion;
use vstd::prelude::*;

verus! {

/// Segment type: to be loaded.
pub const PT_LOAD: u32 = 1;

/// Segment flag: executable.
pub const PF_X: u32 = 1;

/// Segment flag: writable.
pub const PF_W: u32 = 2;

/// Segment flag: readable.
pub const PF_R: u32 = 4;

/// One program header of an image.
#[derive(Copy, Clone, Debug, PartialEq, Eq, Structural)]
pub struct ProgramHeader {
    pub p_type: u32,
    pub p_flags: u32,
    pub p_offset: u64,
    pub p_vaddr: u64,
    pub p_filesz: u64,
    pub p_memsz: u64,
}

/// What the kernel reads out of an image.
pub struct ElfImage {
    pub entry: u64,
    pub program_headers: Vec<ProgramHeader>,
}

/// The error of `goblin`.
#[verifier::external_type_specification]
#[verifier::external_body]
pub struct ExGoblinError(goblin::error::Error);

/// What `goblin` makes of the bytes of a file: the entry point and the
/// program headers in file order, or nothing where it rejects the file.
pub uninterp spec fn parsed_elf(image: Seq<u8>) -> Option<(u64, Seq<ProgramHeader>)>;

/// `goblin::elf::Elf::parse`: the entry point and the program headers of
/// the image, field by field, or the error with which the file was
/// rejected.
#[verifier::external_body]
pub(crate) fn parse_elf(image: &[u8]) -> (r: Result<ElfImage, goblin::error::Error>)
    ensures
        r matches Ok(e) ==> parsed_elf(image@) == Some((e.entry, e.program_headers@)),
        r is Err ==> parsed_elf(image@) is None,
{
    let elf = goblin::elf::Elf::parse(image)?;
    let program_headers = elf.program_headers.iter().map(
        |ph| ProgramHeader {
            p_type: ph.p_type,
            p_flags: ph.p_flags,
            p_offset: ph.p_offset,
            p_vaddr: ph.p_vaddr,
            p_filesz: ph.p_filesz,
            p_memsz: ph.p_memsz,
        },
    ).collect();
    Ok(ElfImage { entry: elf.entry, program_headers })
}

/// One copy the caller makes to load a segment: `len` bytes from `offset`
/// in the file to the physical address `paddr`.
#[derive(Copy, Clone, Debug, PartialEq, Eq, Structural)]
pub struct Segment {
    pub paddr: u64,
    pub offset: u64,
    pub len: u64,
}

impl ProgramHeader {
    /// The segment is to be loaded.
    pub open spec fn load(self) -> bool {
        self.p_type == PT_LOAD
    }

    /// How far into its first page the segment starts.
    pub open spec fn page_offset(self) -> int {
        self.p_vaddr as int % 4096
    }

    /// Bytes of memory the segment takes: from the start of its first page
    /// to the end of its last.
    pub open spec fn region_size(self) -> int {
        let bytes = self.page_offset() + self.p_memsz;
        if bytes % 4096 == 0 {
            bytes
        } else {
            bytes + (4096 - bytes % 4096)
        }
    }

    /// The segment, from the start of its first page to the end of its
    /// last, lies inside the address space.
    pub open spec fn fits(self) -> bool {
        self.p_vaddr - self.page_offset() + self.region_size() <= u64::MAX
    }

    /// The memory region of the segment, once it was given the memory at
    /// `paddr`.
    pub open spec fn region(self, paddr: u64) -> MemoryRegion {
        MemoryRegion {
            paddr,
            vaddr: Some((self.p_vaddr - self.page_offset()) as u64),
            size: self.region_size() as u64,
            r: self.p_flags & PF_R != 0,
            w: self.p_flags & PF_W != 0,
            x: self.p_flags & PF_X != 0,
        }
    }

    /// The copy that loads the segment into the memory at `paddr` from a
    /// file of `image_len` bytes: as many bytes as the segment takes in
    /// memory, or as the file has from the segment's offset on.
    pub open spec fn segment(self, paddr: u64, image_len: u64) -> Segment {
        Segment {
            paddr: (paddr + self.page_offset()) as u64,
            offset: self.p_offset,
            len: if self.p_offset >= image_len {
                0
            } else if self.p_memsz <= image_len - self.p_offset {
                self.p_memsz
            } else {
                (image_len - self.p_offset) as u64
            },
        }
    }

    /// Tests whether the segment is to be loaded.
    pub fn is_load(&self) -> (r: bool)
        ensures
            r == self.load(),
    {
        self.p_type == PT_LOAD
    }

    /// Bytes of memory the segment takes, where it lies inside the address
    /// space.
    pub fn checked_region_size(&self) -> (r: Option<u64>)
        ensures
            r == (if self.fits() {
                Some(self.region_size() as u64)
            } else {
                None
            }),
    {
        let page_offset = self.p_vaddr % 4096;
        let bytes = match page_offset.checked_add(self.p_memsz) {
            None => { return None; },
            Some(bytes) => bytes,
        };
        let rest = bytes % 4096;
        let size = if rest == 0 {
            bytes
        } else {
            match bytes.checked_add(4096 - rest) {
                None => { return None; },
                Some(size) => size,
            }
        };
        match (self.p_vaddr - page_offset).checked_add(size) {
            None => None,
            Some(_) => Some(size),
        }
    }

    /// The memory region of the segment at `paddr`.
    pub fn make_region(&self, paddr: u64) -> (r: MemoryRegion)
        requires
            self.fits(),
        ensures
            r == self.region(paddr),
    {
        let size = self.checked_region_size().unwrap();
        MemoryRegion {
            paddr,
            vaddr: Some(self.p_vaddr - self.p_vaddr % 4096),
            size,
            r: self.p_flags & PF_R != 0,
            w: self.p_flags & PF_W != 0,
            x: self.p_flags & PF_X != 0,
        }
    }

    /// The copy that loads the segment into the memory at `paddr`.
    pub fn make_segment(&self, paddr: u64, image_len: u64) -> (s: Segment)
        requires
            paddr + self.page_offset() <= u64::MAX,
        ensures
            s == self.segment(paddr, image_len),
    {
        let len = if self.p_offset >= image_len {
            0
        } else if self.p_memsz <= image_len - self.p_offset {
            self.p_memsz
        } else {
            image_len - self.p_offset
        };
        Segment { paddr: paddr + self.p_vaddr % 4096, offset: self.p_offset, len }
    }
}

} // verus!
