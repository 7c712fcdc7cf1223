use vstd::prelude::*;

verus! {

/// First interrupt vector of the primary interrupt controller; the vectors
/// below it belong to CPU exceptions.
pub const PIC_1_OFFSET: u8 = 32;

/// First interrupt vector of the secondary interrupt controller.
pub const PIC_2_OFFSET: u8 = 40;

/// The hardware interrupts the kernel handles, in controller line order.
#[derive(Clone, Copy, PartialEq, Eq, Structural, Debug)]
pub enum InterruptsIndex {
    Timer,
    Keyboard,
}

impl InterruptsIndex {
    /// The interrupt vector the controller raises for this line.
    pub open spec fn vector(self) -> u8 {
        match self {
            InterruptsIndex::Timer => PIC_1_OFFSET,
            InterruptsIndex::Keyboard => (PIC_1_OFFSET + 1) as u8,
        }
    }

    /// The interrupt vector of this line.
    pub fn as_u8(self) -> (r: u8)
        ensures
            r == self.vector(),
    {
        match self {
            InterruptsIndex::Timer => PIC_1_OFFSET,
            InterruptsIndex::Keyboard => PIC_1_OFFSET + 1,
        }
    }

    /// The interrupt vector of this line, as an index into the interrupt
    /// descriptor table.
    pub fn as_usize(self) -> (r: usize)
        ensures
            r == self.vector() as usize,
    {
        self.as_u8() as usize
    }
}

} // verus!
