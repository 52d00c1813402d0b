//! Round parameters of SHA-crypt.
use crate::defs::{ROUNDS_DEFAULT, ROUNDS_MAX, ROUNDS_MIN};
use crate::errors::CryptError;
use vstd::prelude::*;

verus! {

/// Whether `rounds` is an accepted number of rounds.
pub open spec fn valid_rounds(rounds: nat) -> bool {
    ROUNDS_MIN <= rounds <= ROUNDS_MAX
}

/// Parameters of a SHA-512 crypt computation.
#[derive(Clone, Copy, Debug)]
pub struct Sha512Params {
    rounds: usize,
}

/// Parameters of a SHA-256 crypt computation.
#[derive(Clone, Copy, Debug)]
pub struct Sha256Params {
    rounds: usize,
}

impl Sha512Params {
    #[verifier::type_invariant]
    pub closed spec fn inv(self) -> bool {
        valid_rounds(self.rounds as nat)
    }

    /// The number of rounds.
    pub closed spec fn round_count(self) -> nat {
        self.rounds as nat
    }

    /// Parameters with `rounds` rounds, if that number is accepted.
    pub fn new(rounds: usize) -> (res: Result<Sha512Params, CryptError>)
        ensures
            res is Ok <==> valid_rounds(rounds as nat),
            res matches Ok(p) ==> p.round_count() == rounds,
            res matches Err(e) ==> e == CryptError::RoundsError,
    {
        if ROUNDS_MIN <= rounds && rounds <= ROUNDS_MAX {
            Ok(Sha512Params { rounds })
        } else {
            Err(CryptError::RoundsError)
        }
    }

    /// The number of rounds, which is always accepted.
    pub fn rounds(&self) -> (r: usize)
        ensures
            r == self.round_count(),
            valid_rounds(r as nat),
    {
        proof {
            use_type_invariant(self);
        }
        self.rounds
    }
}

impl Sha256Params {
    #[verifier::type_invariant]
    pub closed spec fn inv(self) -> bool {
        valid_rounds(self.rounds as nat)
    }

    /// The number of rounds.
    pub closed spec fn round_count(self) -> nat {
        self.rounds as nat
    }

    /// Parameters with `rounds` rounds, if that number is accepted.
    pub fn new(rounds: usize) -> (res: Result<Sha256Params, CryptError>)
        ensures
            res is Ok <==> valid_rounds(rounds as nat),
            res matches Ok(p) ==> p.round_count() == rounds,
            res matches Err(e) ==> e == CryptError::RoundsError,
    {
        if ROUNDS_MIN <= rounds && rounds <= ROUNDS_MAX {
            Ok(Sha256Params { rounds })
        } else {
            Err(CryptError::RoundsError)
        }
    }

    /// The number of rounds, which is always accepted.
    pub fn rounds(&self) -> (r: usize)
        ensures
            r == self.round_count(),
            valid_rounds(r as nat),
    {
        proof {
            use_type_invariant(self);
        }
        self.rounds
    }
}

impl Default for Sha512Params {
    fn default() -> (p: Self)
        ensures
            p.round_count() == ROUNDS_DEFAULT,
    {
        Sha512Params { rounds: ROUNDS_DEFAULT }
    }
}

impl Default for Sha256Params {
    fn default() -> (p: Self)
        ensures
            p.round_count() == ROUNDS_DEFAULT,
    {
        Sha256Params { rounds: ROUNDS_DEFAULT }
    }
}

} // verus!
