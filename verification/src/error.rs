//! The ways in which encoding or decoding can fail.

use vstd::prelude::*;

verus! {

/// Why an encode or decode attempt was abandoned.
#[derive(Clone, Copy, Debug, PartialEq, Eq, Structural)]
pub enum Error {
    /// The cookie holds more than 255 bytes and cannot be encoded.
    CookieTooLong,
    /// The input ended before a mandatory field was fully read.
    Truncated,
    /// A declared length is inconsistent with what it describes, or a
    /// length does not fit the width of its length prefix.
    MalformedLength,
    /// A cipher suite identifier has no registered implementation.
    UnsupportedCipherSuite,
}

} // verus!
