//! Bearer authorization tokens ("macaroons") whose caveats are chained into
//! the token's signature, and a verifier that recomputes that chain across a
//! root token and its discharge tokens.
use vstd::prelude::*;

pub mod crypto;
pub mod macaroon;
pub mod verification;

verus! {

/// The ways in which minting, attenuating, decoding or verifying a token fails.
#[derive(Debug, Clone, Copy, PartialEq, Eq, Structural)]
pub enum MacaroonError {
    /// A key (or a signature used as a key) is not the primitive's key size.
    InvalidKeyLength,
    /// A caveat carries the wrong location / verification id for its kind.
    MalformedCaveat,
    /// A text form is not valid base64.
    DecodeError,
    /// A verification id is too short, or fails authentication.
    DecryptionFailure,
    /// A first-party caveat is accepted by no rule of the verifier.
    CaveatNotSatisfied,
    /// A third-party caveat has no discharge left to match it.
    MissingDischarge,
    /// Some supplied discharge was never used.
    UnusedDischarges,
    /// A recomputed signature does not match the token's.
    SignatureMismatch,
}

pub type Result<T> = core::result::Result<T, MacaroonError>;

} // verus!
