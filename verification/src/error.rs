use vstd::prelude::*;

verus! {

/// The ways a decode can fail. Every error is returned to the caller as a
/// typed value, paired with whatever records were already emitted; no decoder
/// panics on malformed input.
#[derive(Clone, Copy, Debug, PartialEq, Eq, Structural)]
pub enum KlvError {
    /// Fewer bytes remain than a field (key, length prefix, length extension
    /// octets, tag) requires.
    UnexpectedEndOfInput,
    /// A long-form length prefix declares an extension octet count outside
    /// `[1, 8]`.
    InvalidLengthEncoding,
    /// A BER-OID tag ran past the maximum width without a terminating byte.
    InvalidTagEncoding,
    /// A value's declared length exceeds the bytes actually remaining.
    TruncatedPayload,
    /// Local-set decoding was asked to recurse deeper than the depth bound.
    MaxNestingExceeded,
}

} // verus!
