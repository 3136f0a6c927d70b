//! Typed failures of the codec.

use vstd::prelude::*;

verus! {

/// Why a decode, encode or naming step failed.
#[derive(Clone, Copy, Debug, PartialEq, Eq, Structural)]
pub enum XmdError {
    /// The input does not carry the expected magic tag.
    FormatMismatch,
    /// A seek or read reached past the end of the buffer.
    TruncatedData,
    /// An offset or length of the container would not fit in 32 bits.
    SizeOverflow,
    /// The gzip envelope could not be read or written.
    IoFailure,
    /// A payload's embedded name could not be located; callers fall back to
    /// the decimal-id name.
    NamingFailure,
}

} // verus!
