//! Error types.
use vstd::prelude::*;

verus! {

/// Errors while setting up a crypt computation.
#[derive(Clone, Copy, Debug, PartialEq, Eq, Structural)]
pub enum CryptError {
    /// The number of rounds is outside `ROUNDS_MIN..=ROUNDS_MAX`.
    RoundsError,
}

/// The text is not the base-64 form of a digest.
#[derive(Clone, Copy, Debug, PartialEq, Eq, Structural)]
pub struct DecodeError;

/// Errors while checking a password against a stored hash.
#[derive(Debug)]
pub enum CheckError {
    /// The stored hash is not well formed; the string says how.
    InvalidFormat(String),
    /// The stored parameters are not acceptable.
    Crypt(CryptError),
    /// The password does not produce the stored hash.
    HashMismatch,
}

} // verus!
