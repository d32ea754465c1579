//! Interrupt vector numbers of the hardware interrupts.

use vstd::prelude::*;

verus! {

/// First interrupt vector of the primary interrupt controller.
pub const PIC_1_OFFSET: u8 = 32;

/// First interrupt vector of the secondary interrupt controller, right after the primary's
/// eight lines.
pub const PIC_2_OFFSET: u8 = PIC_1_OFFSET + 8;

/// The hardware interrupts that the kernel handles, in the order of the primary
/// controller's lines.
#[derive(Debug, Clone, Copy, PartialEq, Eq, Structural)]
pub enum InterruptIndex {
    Timer,
    Keyboard,
}

impl InterruptIndex {
    /// The interrupt vector of this line: the primary controller's offset plus the line.
    pub open spec fn vector(self) -> int {
        match self {
            InterruptIndex::Timer => PIC_1_OFFSET as int,
            InterruptIndex::Keyboard => PIC_1_OFFSET + 1,
        }
    }

    pub fn as_u8(self) -> (r: u8)
        ensures
            r == self.vector(),
    {
        match self {
            InterruptIndex::Timer => PIC_1_OFFSET,
            InterruptIndex::Keyboard => PIC_1_OFFSET + 1,
        }
    }

    pub fn as_usize(self) -> (r: usize)
        ensures
            r == self.vector(),
    {
        self.as_u8() as usize
    }
}

} // verus!
