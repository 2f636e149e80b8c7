//! Interrupt vectors of the legacy interrupt controllers.

use vstd::prelude::*;

verus! {

/// First vector of the primary controller.
pub const PIC1_OFFSET: u8 = 32;

/// First vector of the secondary controller.
pub const PIC2_OFFSET: u8 = 40;

/// Hardware interrupts the kernel handles, by vector.
#[derive(Clone, Copy, Debug, PartialEq, Eq, Structural)]
pub enum InterruptIndex {
    Timer,
}

impl InterruptIndex {
    pub open spec fn vector(self) -> u8 {
        match self {
            InterruptIndex::Timer => PIC1_OFFSET,
        }
    }

    pub fn as_u8(self) -> (r: u8)
        ensures
            r == self.vector(),
    {
        match self {
            InterruptIndex::Timer => PIC1_OFFSET,
        }
    }

    pub fn as_usize(self) -> (r: usize)
        ensures
            r == self.vector() as usize,
    {
        self.as_u8() as usize
    }
}

} // verus!
