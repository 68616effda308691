use vstd::prelude::*;

verus! {

/// The ways in which splitting or combining can fail.
#[derive(Debug, Clone, Copy, PartialEq, Eq, Structural)]
pub enum ShareError {
    /// `n` or `k` out of range: `k == 0`, `n == 0` or `k > n`.
    InvalidParameters,
    /// A share is shorter than a key share, or its text form does not decode.
    MalformedShare,
    /// The ciphertext suffixes of the given shares differ.
    InconsistentShares,
    /// The recovered key does not open the ciphertext.
    AuthenticationFailure,
    /// The opened payload is not a valid compressed stream.
    DecompressionError,
    /// The cipher refused to seal the payload: its compressed form is
    /// `u32::MAX` or more 64 byte blocks long.
    EncryptionError,
}

} // verus!
