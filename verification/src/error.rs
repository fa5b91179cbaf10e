//! Error kinds of the fallible kernel operations.

use crate::error::TaskError::MapError;
use vstd::prelude::*;

verus! {

/// Failures of the page-table manager.
#[derive(Debug, Copy, Clone, PartialEq, Eq, Structural)]
pub enum VMError {
    /// A physical or virtual address is not a multiple of the page size.
    Misaligned,
    /// The walk met an entry that maps nothing.
    NotFound,
}

/// Failures of the task manager.
#[derive(Debug, Copy, Clone, PartialEq, Eq, Structural)]
pub enum TaskError {
    /// The executable is not on the disk.
    FileNotFound,
    /// The disk could not be read.
    DiskError,
    /// The executable image is not an ELF file this kernel can load.
    ExecParseError,
    /// No task has this id.
    TaskNotFound(usize),
    /// Mapping a page of the task failed.
    MapError(VMError),
}

/// Failures of the block device.
#[derive(Debug, Copy, Clone, PartialEq, Eq, Structural)]
pub enum DiskError {
    Unknown,
}

impl TaskError {
    /// The task error that stands for a failed mapping.
    pub fn from_vm(e: VMError) -> (r: TaskError)
        ensures
            r == MapError(e),
    {
        MapError(e)
    }
}

} // verus!
