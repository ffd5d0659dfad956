//! Errors reported by the transport-stream parsers and encoders.
use vstd::prelude::*;

verus! {

/// Why a parse or an encode was refused.
#[derive(Debug, Clone, Copy, PartialEq, Eq)]
pub enum TsError {
    /// The input ends before `need` bytes of `what` are available.
    Truncated { what: &'static str, have: usize, need: usize },
    /// Byte 0 of a transport packet is not the sync byte.
    BadSyncByte(u8),
    /// A field holds a value that the syntax forbids.
    InvalidField { what: &'static str },
    /// A section announces more bytes than are present.
    SectionLengthOverrun { claimed: usize, have: usize },
    /// The input is well formed but outside what is handled here.
    Unsupported(&'static str),
    /// The CRC trailer of a section does not match its bytes.
    PsiCrcMismatch { header: u32, computed: u32 },
    /// A PES packet does not start with `00 00 01`.
    BadPesStartCode([u8; 3]),
}

/// The error for an input that holds `have` bytes of `what` where `need` are
/// called for.
pub open spec fn truncated(what: &'static str, have: int, need: int) -> TsError {
    TsError::Truncated { what, have: have as usize, need: need as usize }
}

} // verus!
