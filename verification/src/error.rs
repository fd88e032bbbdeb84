use vstd::prelude::*;

verus! {

/// Why a review operation was abandoned.
#[derive(Clone, Copy, Debug, PartialEq, Eq, Structural)]
pub enum ErrorCode {
    /// A destination buffer could not hold a rendering.
    Overflow,
    /// The user rejected a screen.
    UserCancelled,
    /// The device key for the signing path could not be derived.
    DerivingPublicKeyFailed,
    /// Staged bytes did not decode as text.
    InternalError,
}

} // verus!
