//! Host-side flash programmer core for the Microchip ATSAML10 family.
//!
//! The crate has two halves.  `elf` turns the raw bytes of a 32-bit
//! little-endian ELF executable into a `FlashData`: a sorted, disjoint,
//! coalesced list of flash chunks over one backing buffer.  `sam` drives the
//! ATSAML10 programming protocol (reset extension, Boot ROM interactive mode,
//! NVMCTRL row erase/write) as an explicit state machine: each operation is a
//! `Session` that, fed the outcome of the previous probe transaction, decides
//! the next one.  The caller owns the probe and performs the transactions;
//! every decision the protocol makes lives here and is verified.  `model`
//! runs whole sessions against a cooperating target model and proves the
//! end-to-end theorems: erase blanks the flash and is idempotent, program
//! establishes every planned row, and verify then reports no mismatch.

use vstd::prelude::*;

pub mod elf;
pub mod model;
pub mod sam;

verus! {

/// The failure kinds the programmer reports.
///
/// `ImageError` comes from `elf::extract_data`; the protocol sessions in
/// `sam` report the reset-extension, Boot ROM and verify failures.
/// `ProbeUnavailable` and `TransportError` are reserved for the embedder that
/// owns the probe, and `FlashNotReady` for a bounded NVMCTRL ready poll,
/// which the driver does not impose.
#[derive(Clone, Copy, Debug, PartialEq, Eq, Structural)]
pub enum ErrorKind {
    /// Image file malformed or a segment unreadable.
    ImageError,
    /// Cannot attach to the probe or initialize the ARM interface.
    ProbeUnavailable,
    /// `DSU.STATUSA.CRSTEXT` was not set after the pin sequence.
    ResetExtensionFailed,
    /// `BCC1` did not yield `SIG_COMM` after `CMD_INIT`.
    BootRomHandshakeFailed,
    /// `BCC1` did not yield `SIG_CMD_VALID` after `CMD_CHIPERASE`.
    EraseRejected,
    /// Chip-erase polling ended without `SIG_CMD_SUCCESS`; carries the last
    /// observed `BCC1` value.
    EraseFailed(u32),
    /// NVMCTRL `STATUS.READY` never asserted within allowed attempts.
    FlashNotReady,
    /// First disagreement between the expected payload and the read-back.
    VerifyMismatch { address: u32, expected: u8, actual: u8 },
    /// Propagated from the probe transport.
    TransportError,
}

} // verus!
