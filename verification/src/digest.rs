//! Incremental SHA-256 and SHA-512 hashing, from the `sha2` crate.
//!
//! A hasher is modelled by the bytes it has absorbed so far; finishing it
//! yields the digest of exactly those bytes.
use sha2::Digest;
use vstd::prelude::*;

verus! {

/// SHA-256 digest of a byte string, as computed by the `sha2` crate.
pub uninterp spec fn sha256(data: Seq<u8>) -> [u8; 32];

/// SHA-512 digest of a byte string, as computed by the `sha2` crate.
pub uninterp spec fn sha512(data: Seq<u8>) -> [u8; 64];

/// A running `sha2::Sha256` computation.
#[verifier::external_body]
pub struct Sha256Hasher {
    inner: sha2::Sha256,
}

/// A running `sha2::Sha512` computation.
#[verifier::external_body]
pub struct Sha512Hasher {
    inner: sha2::Sha512,
}

/// The bytes a SHA-256 hasher has been fed since it was created.
pub uninterp spec fn sha256_absorbed(h: Sha256Hasher) -> Seq<u8>;

/// The bytes a SHA-512 hasher has been fed since it was created.
pub uninterp spec fn sha512_absorbed(h: Sha512Hasher) -> Seq<u8>;

impl Sha256Hasher {
    /// `sha2::Sha256::default()`: a hasher that has absorbed nothing.
    #[verifier::external_body]
    pub fn new() -> (h: Self)
        ensures
            sha256_absorbed(h) == Seq::<u8>::empty(),
    {
        Sha256Hasher { inner: sha2::Sha256::default() }
    }

    /// `Digest::update` on `sha2::Sha256`: appends `data` to what was absorbed.
    #[verifier::external_body]
    pub fn update(&mut self, data: &[u8])
        ensures
            sha256_absorbed(*final(self)) == sha256_absorbed(*old(self)) + data@,
    {
        self.inner.update(data);
    }

    /// `Digest::finalize` on `sha2::Sha256`: the SHA-256 digest of everything absorbed.
    #[verifier::external_body]
    pub fn finalize(self) -> (out: [u8; 32])
        ensures
            out == sha256(sha256_absorbed(self)),
    {
        self.inner.finalize().into()
    }
}

impl Sha512Hasher {
    /// `sha2::Sha512::default()`: a hasher that has absorbed nothing.
    #[verifier::external_body]
    pub fn new() -> (h: Self)
        ensures
            sha512_absorbed(h) == Seq::<u8>::empty(),
    {
        Sha512Hasher { inner: sha2::Sha512::default() }
    }

    /// `Digest::update` on `sha2::Sha512`: appends `data` to what was absorbed.
    #[verifier::external_body]
    pub fn update(&mut self, data: &[u8])
        ensures
            sha512_absorbed(*final(self)) == sha512_absorbed(*old(self)) + data@,
    {
        self.inner.update(data);
    }

    /// `Digest::finalize` on `sha2::Sha512`: the SHA-512 digest of everything absorbed.
    #[verifier::external_body]
    pub fn finalize(self) -> (out: [u8; 64])
        ensures
            out == sha512(sha512_absorbed(self)),
    {
        self.inner.finalize().into()
    }
}

} // verus!
