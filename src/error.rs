//! Errors of the memory-management core.

use vstd::prelude::*;

verus! {

/// What went wrong in a memory-management operation.
#[derive(Clone, Copy, Debug, PartialEq, Eq, Structural)]
pub enum MemError {
    /// The frame allocator has no free frame left.
    OutOfMemory,
    /// A translation table could not be built or an entry not installed.
    MapFailure,
    /// There is no entry to remove.
    UnmapFailure,
    /// A page touched by a range operation has no mapping.
    PageNotMapped,
    /// An address handed to `free` is not aligned to the frame size.
    AlignmentViolation,
}

} // verus!
