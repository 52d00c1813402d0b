//! The request checks of the scrypt password hasher.
//!
//! The scrypt key derivation itself is not part of this crate; what is here
//! decides which requests are served and how a failed derivation is reported.
use password_hash::errors::B64Error;
use password_hash::Encoding;
use vstd::prelude::*;
use vstd::string::StringSliceAdditionalSpecFns;

verus! {

/// Why B64 text does not decode.
#[derive(Clone, Copy, Debug, PartialEq, Eq, Structural)]
pub enum B64DecodeError {
    /// The text is not valid B64.
    InvalidEncoding,
    /// The decoded bytes do not fit in the buffer.
    InvalidLength,
}

/// What the `password-hash` crate's PHC "B64" decoding (standard Base64
/// without padding) makes of the text `s` with a buffer of `capacity` bytes:
/// the decoded bytes, or the kind of its error.
pub uninterp spec fn phc_b64_decoding(s: Seq<char>, capacity: nat) -> Result<Seq<u8>, B64DecodeError>;

/// `password_hash::Encoding::B64.decode` of `salt` into a buffer of
/// `capacity` bytes (what `Salt::decode_b64` does with the caller's buffer):
/// the decoded bytes, or the crate's error, told apart by its two kinds.
#[verifier::external_body]
fn decode_salt_b64(salt: &str, capacity: usize) -> (res: Result<Vec<u8>, B64DecodeError>)
    ensures
        match res {
            Ok(b) => phc_b64_decoding(salt@, capacity as nat) == Ok::<Seq<u8>, B64DecodeError>(b@),
            Err(e) => phc_b64_decoding(salt@, capacity as nat) == Err::<Seq<u8>, B64DecodeError>(e),
        },
{
    let mut buf = vec![0u8; capacity];
    match Encoding::B64.decode(salt, &mut buf) {
        Ok(b) => Ok(b.to_vec()),
        Err(B64Error::InvalidEncoding) => Err(B64DecodeError::InvalidEncoding),
        Err(B64Error::InvalidLength) => Err(B64DecodeError::InvalidLength),
    }
}

/// Size of the buffer the salt is decoded into.
pub const SALT_BUFFER_LEN: usize = 64;

/// Algorithm identifier of scrypt.
pub const ALG_ID: &'static str = "scrypt";

/// Output length used when the parameters name none.
pub const RECOMMENDED_LEN: usize = 32;

/// The bytes of the algorithm identifier `scrypt`.
pub open spec fn alg_id_bytes() -> Seq<u8> {
    seq![115u8, 99, 114, 121, 112, 116]
}

/// The scrypt password hasher.
#[derive(Clone, Copy, Debug, PartialEq, Eq, Structural)]
pub struct Scrypt;

/// Why a hashing request is refused.
#[derive(Clone, Copy, Debug, PartialEq, Eq, Structural)]
pub enum RequestError {
    /// The request names another algorithm.
    Algorithm,
    /// The request names a version; scrypt has none.
    Version,
}

/// Why a hashing request cannot be carried out.
#[derive(Debug)]
pub enum HashError {
    /// The request names another algorithm.
    Algorithm,
    /// The request names a version; scrypt has none.
    Version,
    /// The salt is not valid B64 of at most 64 bytes; which way it fails.
    SaltEncoding(B64DecodeError),
}

/// Whether the request names only scrypt, if any algorithm, and no version.
pub open spec fn request_error(alg_id: Option<&str>, version: Option<u32>) -> Option<RequestError> {
    if alg_id matches Some(a) && a.spec_bytes() != alg_id_bytes() {
        Some(RequestError::Algorithm)
    } else if version is Some {
        Some(RequestError::Version)
    } else {
        None
    }
}

/// Naming `scrypt` as the algorithm is the same as naming none.
pub proof fn lemma_explicit_alg_id_same_as_none(a: &str, version: Option<u32>)
    requires
        a.spec_bytes() == alg_id_bytes(),
    ensures
        request_error(Some(a), version) == request_error(None, version),
{
}

/// A request that names any algorithm whose identifier is not exactly
/// `scrypt`, whatever its length, is refused for the algorithm, whatever the
/// version; one that names `scrypt` or no algorithm is refused only for a
/// version.
pub proof fn lemma_request_error_cases(alg_id: Option<&str>, version: Option<u32>)
    ensures
        alg_id matches Some(a) && a.spec_bytes() != seq![115u8, 99, 114, 121, 112, 116]
            ==> request_error(alg_id, version) == Some(RequestError::Algorithm),
        (alg_id is None || alg_id->0.spec_bytes() == seq![115u8, 99, 114, 121, 112, 116])
            ==> request_error(alg_id, version) == (if version is Some {
            Some(RequestError::Version)
        } else {
            None::<RequestError>
        }),
{
    assert(alg_id_bytes() =~= seq![115u8, 99, 114, 121, 112, 116]);
}

/// Whether a derived output of `len` bytes was too short or too long.
#[derive(Clone, Copy, Debug, PartialEq, Eq, Structural)]
pub enum SizeMismatch {
    TooShort,
    TooLong,
}

impl Scrypt {
    /// Decides whether a request for algorithm `alg_id` and `version` is served.
    pub fn check_request(&self, alg_id: Option<&str>, version: Option<u32>) -> (res: Result<
        (),
        RequestError,
    >)
        ensures
            res == (match request_error(alg_id, version) {
                Some(e) => Err(e),
                None => Ok(()),
            }),
            alg_id matches Some(a) && a.spec_bytes() != seq![115u8, 99, 114, 121, 112, 116]
                ==> res == Err::<(), RequestError>(RequestError::Algorithm),
    {
        proof {
            lemma_request_error_cases(alg_id, version);
        }
        match alg_id {
            Some(a) => {
                let b = a.as_bytes();
                let same = b.len() == 6 && b[0] == 115 && b[1] == 99 && b[2] == 114 && b[3] == 121
                    && b[4] == 112 && b[5] == 116;
                proof {
                    if same {
                        assert(b@ =~= alg_id_bytes());
                    } else if b@.len() == 6 {
                        assert(b@ != alg_id_bytes()) by {
                            let p = alg_id_bytes();
                            assert(!(b@[0] == p[0] && b@[1] == p[1] && b@[2] == p[2] && b@[3] == p[3]
                                && b@[4] == p[4] && b@[5] == p[5]));
                        }
                    }
                }
                if !same {
                    return Err(RequestError::Algorithm);
                }
            },
            None => {},
        }
        if version.is_some() {
            return Err(RequestError::Version);
        }
        Ok(())
    }

    /// The output length for parameters that name `len`, or none.
    pub fn output_len(len: Option<usize>) -> (n: usize)
        ensures
            n == (match len {
                Some(l) => l,
                None => RECOMMENDED_LEN,
            }),
    {
        match len {
            Some(l) => l,
            None => RECOMMENDED_LEN,
        }
    }

    /// How a failed derivation into a buffer of `out_len` bytes is reported:
    /// an empty buffer was too short, any other was too long.
    pub fn derivation_size_error(out_len: usize) -> (m: SizeMismatch)
        ensures
            m == (if out_len == 0 {
                SizeMismatch::TooShort
            } else {
                SizeMismatch::TooLong
            }),
    {
        if out_len == 0 {
            SizeMismatch::TooShort
        } else {
            SizeMismatch::TooLong
        }
    }

    /// The steps of a hashing request before the key derivation: the
    /// algorithm and version are checked, then the salt is decoded; gives the
    /// salt bytes and the output length.
    pub fn prepare(&self, alg_id: Option<&str>, version: Option<u32>, salt: &str, len: Option<usize>) -> (res:
        Result<(Vec<u8>, usize), HashError>)
        ensures
            match request_error(alg_id, version) {
                Some(RequestError::Algorithm) => res matches Err(HashError::Algorithm),
                Some(RequestError::Version) => res matches Err(HashError::Version),
                None => match phc_b64_decoding(salt@, SALT_BUFFER_LEN as nat) {
                    Err(kind) => res matches Err(HashError::SaltEncoding(e)) && e == kind,
                    Ok(bytes) => res matches Ok((b, n)) && b@ == bytes && n == (match len {
                        Some(l) => l,
                        None => RECOMMENDED_LEN,
                    }),
                },
            },
            alg_id matches Some(a) && a.spec_bytes() != seq![115u8, 99, 114, 121, 112, 116]
                ==> res matches Err(HashError::Algorithm),
    {
        proof {
            lemma_request_error_cases(alg_id, version);
        }
        match self.check_request(alg_id, version) {
            Err(RequestError::Algorithm) => {
                return Err(HashError::Algorithm);
            },
            Err(RequestError::Version) => {
                return Err(HashError::Version);
            },
            Ok(()) => {},
        }
        let salt_bytes = match decode_salt_b64(salt, SALT_BUFFER_LEN) {
            Ok(b) => b,
            Err(e) => {
                return Err(HashError::SaltEncoding(e));
            },
        };
        Ok((salt_bytes, Self::output_len(len)))
    }
}

} // verus!
