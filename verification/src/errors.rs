//! The error kinds that a compression or decompression call can report.

use vstd::prelude::*;

verus! {

/// Every failure of the codec is terminal for the call that raised it:
/// no partial result is returned and nothing is retried.
#[derive(Debug, Clone, Copy, PartialEq, Eq, Structural)]
pub enum Error {
    /// The first four bytes of a package are not the expected magic.
    BadMagic,
    /// The version byte of a package is not a known version.
    BadVersion,
    /// The bitstream reader was asked for more bits than remain.
    OutOfBounds,
    /// A LEB128 payload did not terminate within the 64-bit budget.
    VarintOverflow,
    /// A float was not finite: rejected on encode and on decode.
    IllegalFloat,
    /// A decoded string or key is not valid UTF-8.
    InvalidUtf8,
    /// An unknown value tag, a key missing from the coder at encode
    /// time, or a malformed prefix code at decode time.
    HuffmanError,
    /// A pool reference pointed at or past the end of the pool.
    PoolIdOutOfRange,
    /// The textual envelope is not valid base64.
    Base64Decode,
}

} // verus!
