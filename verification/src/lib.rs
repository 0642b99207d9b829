//! Core library of a small teaching kernel: a verified two-tier heap
//! allocator (a segregated fixed-size-block allocator over a first-fit
//! linked-list fallback), together with the small pure state machines that
//! back the kernel's interrupt numbering, scancode queueing and cooperative
//! task scheduling.
//!
//! Everything that touches hardware (ports, page tables, interrupt vectors,
//! real futures) lives outside this crate; the library works on plain
//! addresses and byte counts and proves its bookkeeping correct.
use vstd::prelude::*;

pub mod allocator;
pub mod interrupts;
pub mod task;

verus! {

/// Exit status reported to the emulator through its debug-exit device.
#[derive(Debug, Clone, Copy, PartialEq, Eq, Structural)]
pub enum QemuExitCode {
    Success,
    Failed,
}

impl QemuExitCode {
    /// The 32-bit value to write to the emulator's debug-exit port for this
    /// status. The emulator then exits with `(value << 1) | 1`.
    pub fn as_u32(self) -> (code: u32)
        ensures
            code == (if self is Success {
                0x10u32
            } else {
                0x11u32
            }),
    {
        match self {
            QemuExitCode::Success => 0x10,
            QemuExitCode::Failed => 0x11,
        }
    }
}

} // verus!
