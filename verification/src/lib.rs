//! SHA-crypt password hashing (the `$5$` and `$6$` schemes of the POSIX
//! crypt library), and the request checks of the scrypt password hasher.
//!
//! Every function here is verified against a specification of the algorithm:
//! `crypt::sha_crypt` for the raw hash, `b64::hash_b64` for its text form,
//! `simple::crypt_string` for the full `$<id>$[rounds=<N>$]<salt>$<hash>`
//! string and `simple::check_outcome` for what checking a password finds.
mod digest;
mod text;

pub mod b64;
pub mod crypt;
pub mod decimal;
pub mod defs;
pub mod errors;
pub mod params;
pub mod scrypt;
pub mod simple;

pub use crate::crypt::{sha256_crypt, sha256_crypt_b64, sha512_crypt, sha512_crypt_b64};
pub use crate::defs::{BLOCK_SIZE_SHA256, BLOCK_SIZE_SHA512, ROUNDS_DEFAULT, ROUNDS_MAX, ROUNDS_MIN};
pub use crate::errors::{CheckError, CryptError};
pub use crate::params::{Sha256Params, Sha512Params};
pub use crate::scrypt::Scrypt;
pub use crate::simple::{
    sha256_check, sha256_simple, sha256_simple_with_salt, sha512_check, sha512_simple,
    sha512_simple_with_salt,
};
