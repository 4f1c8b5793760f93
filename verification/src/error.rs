//! Errors of the emulator core.

use vstd::prelude::*;

verus! {

/// Why a game file could not be loaded.
#[derive(Debug)]
pub enum EmuError {
    /// No `_YUV` or `ARGB` colorspace marker was found.
    HeaderNotFound,
    /// None of the candidate keys decrypts the header.
    DecryptionFailed,
    /// The file is malformed; the message says how.
    InvalidFile(String),
    /// Image data could not be decoded.
    CorruptedImage { offset: usize, message: String },
    /// An action opcode is not known.
    UnknownOpcode { opcode: u32, pc: usize },
    /// A resource offset points past the end of the file.
    OffsetOutOfBounds { offset: usize, resource_type: String },
    /// Any other failure, described by the message.
    Other(String),
}

} // verus!
