//! Hardware-facing identifiers of the collaborator devices: disk buses,
//! interrupt lines, and the emulator's exit codes. The drivers that poke
//! the ports live outside the verified library.

use vstd::prelude::*;

verus! {

/// Standard sector size of the disk driver, in bytes.
pub const SECTOR_SIZE: usize = 512;

/// First interrupt vector the controller's lines are remapped to, past
/// the processor's exception vectors.
pub const PIC_1_OFFSET: u8 = 32;

/// The two legacy disk buses.
#[derive(Debug, Clone, Copy, PartialEq, Eq, Structural)]
pub enum Bus {
    Primary,
    Secondary,
}

impl Bus {
    /// Base address of the bus's register block.
    pub fn io_base(self) -> (r: u16)
        ensures
            r == if self == Bus::Primary {
                0x1F0u16
            } else {
                0x170u16
            },
    {
        match self {
            Bus::Primary => 0x1F0,
            Bus::Secondary => 0x170,
        }
    }
}

/// Remapped hardware interrupt lines this kernel serves.
#[derive(Debug, Clone, Copy, PartialEq, Eq, Structural)]
pub enum InterruptIndex {
    Timer,
    Keyboard,
}

impl InterruptIndex {
    /// The interrupt vector of this line.
    pub fn as_u8(self) -> (r: u8)
        ensures
            r == if self == InterruptIndex::Timer {
                PIC_1_OFFSET as int
            } else {
                PIC_1_OFFSET + 1
            },
    {
        match self {
            InterruptIndex::Timer => PIC_1_OFFSET,
            InterruptIndex::Keyboard => PIC_1_OFFSET + 1,
        }
    }

    /// The interrupt vector, as a table index.
    pub fn as_usize(self) -> (r: usize)
        ensures
            r == if self == InterruptIndex::Timer {
                PIC_1_OFFSET as int
            } else {
                PIC_1_OFFSET + 1
            },
    {
        self.as_u8() as usize
    }
}

/// What the kernel reports to the emulator's exit device.
#[derive(Debug, Clone, Copy, PartialEq, Eq, Structural)]
pub enum QemuExitCode {
    Success,
    Failed,
}

impl QemuExitCode {
    /// The value written to the exit port.
    pub fn code(self) -> (r: u32)
        ensures
            r == if self == QemuExitCode::Success {
                0x10u32
            } else {
                0x11u32
            },
    {
        match self {
            QemuExitCode::Success => 0x10,
            QemuExitCode::Failed => 0x11,
        }
    }
}

} // verus!
