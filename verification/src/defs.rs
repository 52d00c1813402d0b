//! Sizes and limits of SHA-crypt.
use vstd::prelude::*;

verus! {

/// Length in bytes of a SHA-512 crypt hash.
pub const BLOCK_SIZE_SHA512: usize = 64;

/// Length in bytes of a SHA-256 crypt hash.
pub const BLOCK_SIZE_SHA256: usize = 32;

/// Length in characters of the encoded SHA-512 crypt hash.
pub const PW_SIZE_SHA512: usize = 86;

/// Length in characters of the encoded SHA-256 crypt hash.
pub const PW_SIZE_SHA256: usize = 43;

/// Number of salt characters that are used.
pub const SALT_MAX_LEN: usize = 16;

/// Default number of rounds.
pub const ROUNDS_DEFAULT: usize = 5_000;

/// Minimum number of rounds.
pub const ROUNDS_MIN: usize = 1_000;

/// Maximum number of rounds.
pub const ROUNDS_MAX: usize = 999_999_999;

} // verus!
