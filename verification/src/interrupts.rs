//! Interrupt-vector numbering for the two external hardware interrupts the
//! kernel services. Loading the descriptor table and acknowledging the
//! interrupt controller are hardware work and live outside this crate; the
//! library only fixes the vector numbers.
use vstd::prelude::*;

verus! {

/// First vector of the primary interrupt controller, placed just after the
/// 32 CPU exception vectors.
pub const PIC_1_OFFSET: u8 = 32;

/// First vector of the secondary interrupt controller, 8 vectors later.
pub const PIC_2_OFFSET: u8 = PIC_1_OFFSET + 8;

/// The external hardware interrupts the kernel handles.
#[derive(Debug, Clone, Copy, PartialEq, Eq, Structural)]
pub enum InterruptIndex {
    Timer,
    Keyboard,
}

impl InterruptIndex {
    /// The interrupt's vector number: the timer sits on the controller's
    /// first line, the keyboard on the next one.
    pub fn as_u8(self) -> (vector: u8)
        ensures
            self is Timer ==> vector == PIC_1_OFFSET,
            self is Keyboard ==> vector == PIC_1_OFFSET + 1,
    {
        match self {
            InterruptIndex::Timer => PIC_1_OFFSET,
            InterruptIndex::Keyboard => PIC_1_OFFSET + 1,
        }
    }
}

} // verus!
