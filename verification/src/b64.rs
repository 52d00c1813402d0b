//! The base-64 encoding used by crypt hashes.
//!
//! Bytes are taken three at a time as a little-endian 24-bit word, and the
//! word is written six bits at a time, least significant first, with the
//! alphabet `./0-9A-Za-z`. A trailing group of one or two bytes gives two or
//! three characters. SHA-crypt reorders the digest bytes before encoding.
use crate::crypt::ShaVariant;
use crate::defs::{BLOCK_SIZE_SHA256, BLOCK_SIZE_SHA512, PW_SIZE_SHA256, PW_SIZE_SHA512};
use crate::errors::DecodeError;
use vstd::prelude::*;

verus! {

/// The character for a 6-bit value.
pub open spec fn b64_char(v: u8) -> u8 {
    if v < 2 {
        (46 + v) as u8
    } else if v < 12 {
        (48 + (v - 2)) as u8
    } else if v < 38 {
        (65 + (v - 12)) as u8
    } else {
        (97 + (v - 38)) as u8
    }
}

/// Whether `c` belongs to the alphabet.
pub open spec fn is_b64_char(c: u8) -> bool {
    c == 46 || c == 47 || (48 <= c <= 57) || (65 <= c <= 90) || (97 <= c <= 122)
}

/// The 6-bit value of a character of the alphabet.
pub open spec fn b64_value(c: u8) -> u8 {
    if c <= 47 {
        (c - 46) as u8
    } else if c <= 57 {
        (c - 48 + 2) as u8
    } else if c <= 90 {
        (c - 65 + 12) as u8
    } else {
        (c - 97 + 38) as u8
    }
}

/// The six bits of `w` that start at bit `shift`.
pub open spec fn sextet(w: u32, shift: u32) -> u8 {
    ((w >> shift) & 63) as u8
}

/// The character of the six bits of `w` that start at bit `shift`.
pub open spec fn char_at(w: u32, shift: u32) -> u8 {
    b64_char(sextet(w, shift))
}

/// Three bytes as a little-endian word.
pub open spec fn word3(t0: u8, t1: u8, t2: u8) -> u32 {
    (t0 as u32) | ((t1 as u32) << 8u32) | ((t2 as u32) << 16u32)
}

/// Four 6-bit values as a little-endian word.
pub open spec fn word4(v0: u8, v1: u8, v2: u8, v3: u8) -> u32 {
    (v0 as u32) | ((v1 as u32) << 6u32) | ((v2 as u32) << 12u32) | ((v3 as u32) << 18u32)
}

/// The base-64 encoding of `t`.
pub open spec fn b64_encode(t: Seq<u8>) -> Seq<u8>
    decreases t.len(),
{
    if t.len() == 0 {
        Seq::empty()
    } else if t.len() == 1 {
        let w = word3(t[0], 0, 0);
        seq![char_at(w, 0), char_at(w, 6)]
    } else if t.len() == 2 {
        let w = word3(t[0], t[1], 0);
        seq![char_at(w, 0), char_at(w, 6), char_at(w, 12)]
    } else {
        let w = word3(t[0], t[1], t[2]);
        seq![char_at(w, 0), char_at(w, 6), char_at(w, 12), char_at(w, 18)] + b64_encode(t.skip(3))
    }
}

/// The bytes that `s` encodes, if `s` is the encoding of some byte string.
pub open spec fn b64_decode(s: Seq<u8>) -> Option<Seq<u8>>
    decreases s.len(),
{
    if s.len() == 0 {
        Some(Seq::empty())
    } else if s.len() == 1 {
        None
    } else if s.len() == 2 {
        if is_b64_char(s[0]) && is_b64_char(s[1]) && b64_value(s[1]) < 4 {
            let w = word4(b64_value(s[0]), b64_value(s[1]), 0, 0);
            Some(seq![(w & 255) as u8])
        } else {
            None
        }
    } else if s.len() == 3 {
        if is_b64_char(s[0]) && is_b64_char(s[1]) && is_b64_char(s[2]) && b64_value(s[2]) < 16 {
            let w = word4(b64_value(s[0]), b64_value(s[1]), b64_value(s[2]), 0);
            Some(seq![(w & 255) as u8, ((w >> 8u32) & 255) as u8])
        } else {
            None
        }
    } else {
        if is_b64_char(s[0]) && is_b64_char(s[1]) && is_b64_char(s[2]) && is_b64_char(s[3]) {
            let w = word4(b64_value(s[0]), b64_value(s[1]), b64_value(s[2]), b64_value(s[3]));
            match b64_decode(s.skip(4)) {
                Some(r) => Some(
                    seq![(w & 255) as u8, ((w >> 8u32) & 255) as u8, ((w >> 16u32) & 255) as u8] + r,
                ),
                None => None,
            }
        } else {
            None
        }
    }
}

/// `r` with `prefix` in front, if there is an `r`.
pub open spec fn prefixed(prefix: Seq<u8>, r: Option<Seq<u8>>) -> Option<Seq<u8>> {
    match r {
        Some(x) => Some(prefix + x),
        None => None,
    }
}

pub(crate) proof fn lemma_char_value(v: u8)
    requires
        v < 64,
    ensures
        is_b64_char(b64_char(v)),
        b64_value(b64_char(v)) == v,
{
}

proof fn lemma_value_char(c: u8)
    requires
        is_b64_char(c),
    ensures
        b64_value(c) < 64,
        b64_char(b64_value(c)) == c,
{
}

proof fn lemma_group3(t0: u8, t1: u8, t2: u8)
    ensures
        ({
            let w = word3(t0, t1, t2);
            let v = word4(sextet(w, 0), sextet(w, 6), sextet(w, 12), sextet(w, 18));
            &&& sextet(w, 0) < 64 && sextet(w, 6) < 64 && sextet(w, 12) < 64 && sextet(w, 18) < 64
            &&& (v & 255) as u8 == t0
            &&& ((v >> 8u32) & 255) as u8 == t1
            &&& ((v >> 16u32) & 255) as u8 == t2
        }),
{
    assert({
        let w = (t0 as u32) | ((t1 as u32) << 8u32) | ((t2 as u32) << 16u32);
        let s0 = ((w >> 0u32) & 63) as u8;
        let s1 = ((w >> 6u32) & 63) as u8;
        let s2 = ((w >> 12u32) & 63) as u8;
        let s3 = ((w >> 18u32) & 63) as u8;
        let v = (s0 as u32) | ((s1 as u32) << 6u32) | ((s2 as u32) << 12u32) | ((s3 as u32) << 18u32);
        &&& s0 < 64 && s1 < 64 && s2 < 64 && s3 < 64
        &&& (v & 255) as u8 == t0
        &&& ((v >> 8u32) & 255) as u8 == t1
        &&& ((v >> 16u32) & 255) as u8 == t2
    }) by (bit_vector);
}

proof fn lemma_group2(t0: u8, t1: u8)
    ensures
        ({
            let w = word3(t0, t1, 0);
            let v = word4(sextet(w, 0), sextet(w, 6), sextet(w, 12), 0);
            &&& sextet(w, 0) < 64 && sextet(w, 6) < 64 && sextet(w, 12) < 16
            &&& (v & 255) as u8 == t0
            &&& ((v >> 8u32) & 255) as u8 == t1
        }),
{
    assert({
        let w = (t0 as u32) | ((t1 as u32) << 8u32) | ((0u8 as u32) << 16u32);
        let s0 = ((w >> 0u32) & 63) as u8;
        let s1 = ((w >> 6u32) & 63) as u8;
        let s2 = ((w >> 12u32) & 63) as u8;
        let v = (s0 as u32) | ((s1 as u32) << 6u32) | ((s2 as u32) << 12u32) | ((0u8 as u32) << 18u32);
        &&& s0 < 64 && s1 < 64 && s2 < 16
        &&& (v & 255) as u8 == t0
        &&& ((v >> 8u32) & 255) as u8 == t1
    }) by (bit_vector);
}

proof fn lemma_group1(t0: u8)
    ensures
        ({
            let w = word3(t0, 0, 0);
            let v = word4(sextet(w, 0), sextet(w, 6), 0, 0);
            &&& sextet(w, 0) < 64 && sextet(w, 6) < 4
            &&& (v & 255) as u8 == t0
        }),
{
    assert({
        let w = (t0 as u32) | ((0u8 as u32) << 8u32) | ((0u8 as u32) << 16u32);
        let s0 = ((w >> 0u32) & 63) as u8;
        let s1 = ((w >> 6u32) & 63) as u8;
        let v = (s0 as u32) | ((s1 as u32) << 6u32) | ((0u8 as u32) << 12u32) | ((0u8 as u32) << 18u32);
        &&& s0 < 64 && s1 < 4
        &&& (v & 255) as u8 == t0
    }) by (bit_vector);
}

/// Decoding gives back the bytes that were encoded.
pub proof fn lemma_decode_encode(t: Seq<u8>)
    ensures
        b64_decode(b64_encode(t)) == Some(t),
    decreases t.len(),
{
    let e = b64_encode(t);
    if t.len() == 0 {
    } else if t.len() == 1 {
        lemma_group1(t[0]);
        let w = word3(t[0], 0, 0);
        lemma_char_value(sextet(w, 0));
        lemma_char_value(sextet(w, 6));
        assert(seq![t[0]] =~= t);
    } else if t.len() == 2 {
        lemma_group2(t[0], t[1]);
        let w = word3(t[0], t[1], 0);
        lemma_char_value(sextet(w, 0));
        lemma_char_value(sextet(w, 6));
        lemma_char_value(sextet(w, 12));
        assert(seq![t[0], t[1]] =~= t);
    } else {
        lemma_group3(t[0], t[1], t[2]);
        let w = word3(t[0], t[1], t[2]);
        lemma_char_value(sextet(w, 0));
        lemma_char_value(sextet(w, 6));
        lemma_char_value(sextet(w, 12));
        lemma_char_value(sextet(w, 18));
        lemma_decode_encode(t.skip(3));
        assert(e.skip(4) =~= b64_encode(t.skip(3)));
        assert(seq![t[0], t[1], t[2]] + t.skip(3) =~= t);
    }
}

proof fn lemma_ungroup4(v0: u8, v1: u8, v2: u8, v3: u8)
    requires
        v0 < 64 && v1 < 64 && v2 < 64 && v3 < 64,
    ensures
        ({
            let v = word4(v0, v1, v2, v3);
            let w = word3((v & 255) as u8, ((v >> 8u32) & 255) as u8, ((v >> 16u32) & 255) as u8);
            sextet(w, 0) == v0 && sextet(w, 6) == v1 && sextet(w, 12) == v2 && sextet(w, 18) == v3
        }),
{
    assert({
        let v = (v0 as u32) | ((v1 as u32) << 6u32) | ((v2 as u32) << 12u32) | ((v3 as u32) << 18u32);
        let t0 = (v & 255) as u8;
        let t1 = ((v >> 8u32) & 255) as u8;
        let t2 = ((v >> 16u32) & 255) as u8;
        let w = (t0 as u32) | ((t1 as u32) << 8u32) | ((t2 as u32) << 16u32);
        ((w >> 0u32) & 63) as u8 == v0 && ((w >> 6u32) & 63) as u8 == v1 && ((w >> 12u32) & 63) as u8 == v2
            && ((w >> 18u32) & 63) as u8 == v3
    }) by (bit_vector)
        requires
            v0 < 64 && v1 < 64 && v2 < 64 && v3 < 64,
    ;
}

proof fn lemma_ungroup3(v0: u8, v1: u8, v2: u8)
    requires
        v0 < 64 && v1 < 64 && v2 < 16,
    ensures
        ({
            let v = word4(v0, v1, v2, 0);
            let w = word3((v & 255) as u8, ((v >> 8u32) & 255) as u8, 0);
            sextet(w, 0) == v0 && sextet(w, 6) == v1 && sextet(w, 12) == v2
        }),
{
    assert({
        let v = (v0 as u32) | ((v1 as u32) << 6u32) | ((v2 as u32) << 12u32) | ((0u8 as u32) << 18u32);
        let t0 = (v & 255) as u8;
        let t1 = ((v >> 8u32) & 255) as u8;
        let w = (t0 as u32) | ((t1 as u32) << 8u32) | ((0u8 as u32) << 16u32);
        ((w >> 0u32) & 63) as u8 == v0 && ((w >> 6u32) & 63) as u8 == v1 && ((w >> 12u32) & 63) as u8 == v2
    }) by (bit_vector)
        requires
            v0 < 64 && v1 < 64 && v2 < 16,
    ;
}

proof fn lemma_ungroup2(v0: u8, v1: u8)
    requires
        v0 < 64 && v1 < 4,
    ensures
        ({
            let v = word4(v0, v1, 0, 0);
            let w = word3((v & 255) as u8, 0, 0);
            sextet(w, 0) == v0 && sextet(w, 6) == v1
        }),
{
    assert({
        let v = (v0 as u32) | ((v1 as u32) << 6u32) | ((0u8 as u32) << 12u32) | ((0u8 as u32) << 18u32);
        let t0 = (v & 255) as u8;
        let w = (t0 as u32) | ((0u8 as u32) << 8u32) | ((0u8 as u32) << 16u32);
        ((w >> 0u32) & 63) as u8 == v0 && ((w >> 6u32) & 63) as u8 == v1
    }) by (bit_vector)
        requires
            v0 < 64 && v1 < 4,
    ;
}

/// Decoding accepts only canonical encodings: what it returns encodes back to its input.
pub proof fn lemma_encode_decode(s: Seq<u8>)
    requires
        b64_decode(s) is Some,
    ensures
        b64_encode(b64_decode(s)->0) == s,
    decreases s.len(),
{
    let t = b64_decode(s)->0;
    if s.len() == 0 {
    } else if s.len() == 2 {
        lemma_value_char(s[0]);
        lemma_value_char(s[1]);
        lemma_ungroup2(b64_value(s[0]), b64_value(s[1]));
        assert(b64_encode(t) =~= s);
    } else if s.len() == 3 {
        lemma_value_char(s[0]);
        lemma_value_char(s[1]);
        lemma_value_char(s[2]);
        lemma_ungroup3(b64_value(s[0]), b64_value(s[1]), b64_value(s[2]));
        assert(b64_encode(t) =~= s);
    } else {
        lemma_value_char(s[0]);
        lemma_value_char(s[1]);
        lemma_value_char(s[2]);
        lemma_value_char(s[3]);
        lemma_ungroup4(b64_value(s[0]), b64_value(s[1]), b64_value(s[2]), b64_value(s[3]));
        lemma_encode_decode(s.skip(4));
        let r = b64_decode(s.skip(4))->0;
        assert(t.skip(3) =~= r);
        assert(b64_encode(t) =~= s);
    }
}

/// The character for a 6-bit value.
pub(crate) fn char_of(v: u8) -> (c: u8)
    requires
        v < 64,
    ensures
        c == b64_char(v),
{
    if v < 2 {
        46 + v
    } else if v < 12 {
        48 + (v - 2)
    } else if v < 38 {
        65 + (v - 12)
    } else {
        97 + (v - 38)
    }
}

/// The 6-bit value of `c`, if `c` belongs to the alphabet.
fn value_of(c: u8) -> (r: Option<u8>)
    ensures
        r is Some <==> is_b64_char(c),
        r matches Some(v) ==> v == b64_value(c) && v < 64,
{
    if c == 46 || c == 47 {
        Some(c - 46)
    } else if 48 <= c && c <= 57 {
        Some(c - 48 + 2)
    } else if 65 <= c && c <= 90 {
        Some(c - 65 + 12)
    } else if 97 <= c && c <= 122 {
        Some(c - 97 + 38)
    } else {
        None
    }
}

/// The character of the six bits of `w` that start at bit `shift`.
fn char_of_bits(w: u32, shift: u32) -> (c: u8)
    requires
        shift <= 18,
    ensures
        c == char_at(w, shift),
{
    let v = (w >> shift) & 63;
    assert(v < 64) by (bit_vector)
        requires
            v == (w >> shift) & 63,
    ;
    char_of(v as u8)
}

/// Encodes `t` in the crypt base-64 alphabet.
pub fn encode(t: &[u8]) -> (out: Vec<u8>)
    ensures
        out@ == b64_encode(t@),
{
    let n = t.len();
    let mut out: Vec<u8> = Vec::new();
    let mut i: usize = 0;
    assert(t@.skip(0) =~= t@);
    while n - i >= 3
        invariant
            n == t@.len(),
            i <= n,
            out@ + b64_encode(t@.skip(i as int)) == b64_encode(t@),
        decreases n - i,
    {
        let w: u32 = (t[i] as u32) | ((t[i + 1] as u32) << 8u32) | ((t[i + 2] as u32) << 16u32);
        let ghost rest = t@.skip(i as int);
        assert(w == word3(rest[0], rest[1], rest[2]));
        assert(rest.skip(3) =~= t@.skip(i + 3));
        out.push(char_of_bits(w, 0));
        out.push(char_of_bits(w, 6));
        out.push(char_of_bits(w, 12));
        out.push(char_of_bits(w, 18));
        i += 3;
    }
    let ghost rest = t@.skip(i as int);
    if n - i == 1 {
        let w: u32 = (t[i] as u32) | ((0u8 as u32) << 8u32) | ((0u8 as u32) << 16u32);
        assert(w == word3(rest[0], 0, 0));
        out.push(char_of_bits(w, 0));
        out.push(char_of_bits(w, 6));
    } else if n - i == 2 {
        let w: u32 = (t[i] as u32) | ((t[i + 1] as u32) << 8u32) | ((0u8 as u32) << 16u32);
        assert(w == word3(rest[0], rest[1], 0));
        out.push(char_of_bits(w, 0));
        out.push(char_of_bits(w, 6));
        out.push(char_of_bits(w, 12));
    }
    assert(out@ =~= b64_encode(t@));
    out
}

/// Decodes `s`, if it is the canonical encoding of some byte string.
pub fn decode(s: &[u8]) -> (res: Option<Vec<u8>>)
    ensures
        match res {
            Some(v) => b64_decode(s@) == Some(v@),
            None => b64_decode(s@) is None,
        },
{
    let n = s.len();
    let mut out: Vec<u8> = Vec::new();
    let mut i: usize = 0;
    assert(s@.skip(0) =~= s@);
    while n - i >= 4
        invariant
            n == s@.len(),
            i <= n,
            b64_decode(s@) == prefixed(out@, b64_decode(s@.skip(i as int))),
        decreases n - i,
    {
        let ghost rest = s@.skip(i as int);
        let v0 = value_of(s[i]);
        let v1 = value_of(s[i + 1]);
        let v2 = value_of(s[i + 2]);
        let v3 = value_of(s[i + 3]);
        match (v0, v1, v2, v3) {
            (Some(v0), Some(v1), Some(v2), Some(v3)) => {
                let w: u32 = (v0 as u32) | ((v1 as u32) << 6u32) | ((v2 as u32) << 12u32) | ((v3 as u32)
                    << 18u32);
                assert(w == word4(b64_value(rest[0]), b64_value(rest[1]), b64_value(rest[2]), b64_value(rest[3])));
                assert(rest.skip(4) =~= s@.skip(i + 4));
                let ghost before = out@;
                out.push((w & 255) as u8);
                out.push(((w >> 8u32) & 255) as u8);
                out.push(((w >> 16u32) & 255) as u8);
                assert(out@ =~= before + seq![(w & 255) as u8, ((w >> 8u32) & 255) as u8, ((w >> 16u32) & 255) as u8]);
                assert(b64_decode(s@) == prefixed(out@, b64_decode(s@.skip(i + 4)))) by {
                    match b64_decode(s@.skip(i + 4)) {
                        Some(r) => {
                            assert(before + (seq![(w & 255) as u8, ((w >> 8u32) & 255) as u8, ((w >> 16u32) & 255) as u8] + r) =~= out@ + r);
                        },
                        None => {},
                    }
                }
                i += 4;
            },
            _ => {
                return None;
            },
        }
    }
    let ghost rest = s@.skip(i as int);
    if n - i == 1 {
        return None;
    } else if n - i == 2 {
        match (value_of(s[i]), value_of(s[i + 1])) {
            (Some(v0), Some(v1)) => {
                if v1 >= 4 {
                    return None;
                }
                let w: u32 = (v0 as u32) | ((v1 as u32) << 6u32) | ((0u8 as u32) << 12u32) | ((0u8 as u32) << 18u32);
                assert(w == word4(b64_value(rest[0]), b64_value(rest[1]), 0, 0));
                out.push((w & 255) as u8);
            },
            _ => {
                return None;
            },
        }
    } else if n - i == 3 {
        match (value_of(s[i]), value_of(s[i + 1]), value_of(s[i + 2])) {
            (Some(v0), Some(v1), Some(v2)) => {
                if v2 >= 16 {
                    return None;
                }
                let w: u32 = (v0 as u32) | ((v1 as u32) << 6u32) | ((v2 as u32) << 12u32) | ((0u8 as u32) << 18u32);
                assert(w == word4(b64_value(rest[0]), b64_value(rest[1]), b64_value(rest[2]), 0));
                out.push((w & 255) as u8);
                out.push(((w >> 8u32) & 255) as u8);
            },
            _ => {
                return None;
            },
        }
    }
    proof {
        let r = b64_decode(rest)->0;
        if n - i == 0 {
            assert(out@ + r =~= out@);
        }
    }
    Some(out)
}

/// Number of characters in the encoding of `n` bytes.
pub open spec fn encoded_len(n: nat) -> nat {
    (4 * n + 2) / 3
}

/// The encoding has `encoded_len` characters, all of the alphabet.
pub proof fn lemma_encode_shape(t: Seq<u8>)
    ensures
        b64_encode(t).len() == encoded_len(t.len()),
        forall|i: int| 0 <= i < b64_encode(t).len() ==> is_b64_char(#[trigger] b64_encode(t)[i]),
    decreases t.len(),
{
    if t.len() == 1 {
        let w = word3(t[0], 0, 0);
        lemma_group1(t[0]);
        lemma_char_value(sextet(w, 0));
        lemma_char_value(sextet(w, 6));
    } else if t.len() == 2 {
        let w = word3(t[0], t[1], 0);
        lemma_group2(t[0], t[1]);
        lemma_char_value(sextet(w, 0));
        lemma_char_value(sextet(w, 6));
        lemma_char_value(sextet(w, 12));
    } else if t.len() >= 3 {
        let w = word3(t[0], t[1], t[2]);
        lemma_group3(t[0], t[1], t[2]);
        lemma_char_value(sextet(w, 0));
        lemma_char_value(sextet(w, 6));
        lemma_char_value(sextet(w, 12));
        lemma_char_value(sextet(w, 18));
        lemma_encode_shape(t.skip(3));
        let e = b64_encode(t);
        let head = seq![char_at(w, 0), char_at(w, 6), char_at(w, 12), char_at(w, 18)];
        assert(e == head + b64_encode(t.skip(3)));
        assert forall|i: int| 0 <= i < e.len() implies is_b64_char(#[trigger] e[i]) by {
            if i >= 4 {
                assert(e[i] == b64_encode(t.skip(3))[i - 4]);
            }
        }
    }
}

/// Which digest byte goes to position `i` before encoding.
pub open spec fn source_index(v: ShaVariant, i: nat) -> nat {
    match v {
        ShaVariant::Sha512 => {
            if i >= 63 {
                i
            } else {
                let k = i / 3;
                let r = i % 3;
                k + 21 * ((k + 5 - r) % 3) as nat
            }
        },
        ShaVariant::Sha256 => {
            if i >= 30 {
                i
            } else {
                let k = i / 3;
                let r = i % 3;
                k + 10 * ((8 - r - k % 3) % 3) as nat
            }
        },
    }
}

/// At which position digest byte `j` stands before encoding.
pub open spec fn target_index(v: ShaVariant, j: nat) -> nat {
    match v {
        ShaVariant::Sha512 => {
            if j >= 63 {
                j
            } else {
                let k = j % 21;
                let m = j / 21;
                3 * k + ((k + 5 - m) % 3) as nat
            }
        },
        ShaVariant::Sha256 => {
            if j >= 30 {
                j
            } else {
                let k = j % 10;
                let m = j / 10;
                3 * k + ((8 - k % 3 - m) % 3) as nat
            }
        },
    }
}

/// The digest bytes in the order in which they are encoded.
pub open spec fn transposed(v: ShaVariant, x: Seq<u8>) -> Seq<u8> {
    Seq::new(v.block_size(), |i: int| x[source_index(v, i as nat) as int])
}

/// The digest bytes back in their own order.
pub open spec fn untransposed(v: ShaVariant, t: Seq<u8>) -> Seq<u8> {
    Seq::new(v.block_size(), |j: int| t[target_index(v, j as nat) as int])
}

/// The textual form of a crypt digest.
pub open spec fn hash_b64(v: ShaVariant, x: Seq<u8>) -> Seq<u8> {
    b64_encode(transposed(v, x))
}

/// The digest whose textual form is `s`, if there is one.
pub open spec fn hash_from_b64(v: ShaVariant, s: Seq<u8>) -> Option<Seq<u8>> {
    match b64_decode(s) {
        Some(t) => if t.len() == v.block_size() {
            Some(untransposed(v, t))
        } else {
            None
        },
        None => None,
    }
}

proof fn lemma_mod3_sub(a: int, b: int, m: int)
    requires
        0 <= b < 3,
        m == (a - b) % 3,
        a >= 3,
    ensures
        (a - m) % 3 == b,
{
}

proof fn lemma_split(j: int, n: int, k: int, m: int)
    requires
        0 <= k < n,
        0 <= m,
        j == k + n * m,
        n == 21 || n == 10,
    ensures
        j % n == k,
        j / n == m,
{
    assert(j % n == k && j / n == m) by (nonlinear_arith)
        requires
            0 <= k < n,
            0 <= m,
            j == k + n * m,
    ;
}

proof fn lemma_indices_512(i: nat)
    requires
        i < 64,
    ensures
        source_index(ShaVariant::Sha512, i) < 64,
        target_index(ShaVariant::Sha512, i) < 64,
        target_index(ShaVariant::Sha512, source_index(ShaVariant::Sha512, i)) == i,
        source_index(ShaVariant::Sha512, target_index(ShaVariant::Sha512, i)) == i,
{
    if i < 63 {
        let k = i / 3;
        let r = i % 3;
        let m = ((k + 5 - r) % 3) as nat;
        let j = k + 21 * m;
        assert(source_index(ShaVariant::Sha512, i) == j);
        lemma_split(j as int, 21, k as int, m as int);
        lemma_mod3_sub((k + 5) as int, r as int, m as int);
        assert(target_index(ShaVariant::Sha512, j) == 3 * k + ((k + 5 - m) % 3) as nat);
        let k2 = i % 21;
        let m2 = i / 21;
        let r2 = ((k2 + 5 - m2) % 3) as nat;
        let i2 = 3 * k2 + r2;
        assert(target_index(ShaVariant::Sha512, i) == i2);
        assert(i2 / 3 == k2 && i2 % 3 == r2);
        lemma_mod3_sub((k2 + 5) as int, m2 as int, r2 as int);
        assert(source_index(ShaVariant::Sha512, i2) == k2 + 21 * m2);
    }
}

proof fn lemma_indices_256(i: nat)
    requires
        i < 32,
    ensures
        source_index(ShaVariant::Sha256, i) < 32,
        target_index(ShaVariant::Sha256, i) < 32,
        target_index(ShaVariant::Sha256, source_index(ShaVariant::Sha256, i)) == i,
        source_index(ShaVariant::Sha256, target_index(ShaVariant::Sha256, i)) == i,
{
    if i < 30 {
        let k = i / 3;
        let r = i % 3;
        let m = ((8 - r - k % 3) % 3) as nat;
        let j = k + 10 * m;
        assert(source_index(ShaVariant::Sha256, i) == j);
        lemma_split(j as int, 10, k as int, m as int);
        lemma_mod3_sub(8 - k % 3, r as int, m as int);
        assert(target_index(ShaVariant::Sha256, j) == 3 * k + ((8 - k % 3 - m) % 3) as nat);
        let k2 = i % 10;
        let m2 = i / 10;
        let r2 = ((8 - k2 % 3 - m2) % 3) as nat;
        let i2 = 3 * k2 + r2;
        assert(target_index(ShaVariant::Sha256, i) == i2);
        assert(i2 / 3 == k2 && i2 % 3 == r2);
        lemma_mod3_sub(8 - k2 % 3, m2 as int, r2 as int);
        assert(source_index(ShaVariant::Sha256, i2) == k2 + 10 * m2);
    }
}

proof fn lemma_indices(v: ShaVariant, i: nat)
    requires
        i < v.block_size(),
    ensures
        source_index(v, i) < v.block_size(),
        target_index(v, i) < v.block_size(),
        target_index(v, source_index(v, i)) == i,
        source_index(v, target_index(v, i)) == i,
{
    match v {
        ShaVariant::Sha512 => lemma_indices_512(i),
        ShaVariant::Sha256 => lemma_indices_256(i),
    }
}

/// Reading back the textual form of a digest gives the digest.
pub proof fn lemma_hash_b64_roundtrip(v: ShaVariant, x: Seq<u8>)
    requires
        x.len() == v.block_size(),
    ensures
        hash_from_b64(v, hash_b64(v, x)) == Some(x),
{
    let t = transposed(v, x);
    lemma_decode_encode(t);
    assert forall|j: int| 0 <= j < x.len() implies #[trigger] untransposed(v, t)[j] == x[j] by {
        lemma_indices(v, j as nat);
    }
    assert(untransposed(v, t) =~= x);
}

/// Only the textual form of a digest is read back, as that digest.
pub proof fn lemma_hash_from_b64_canonical(v: ShaVariant, s: Seq<u8>)
    requires
        hash_from_b64(v, s) is Some,
    ensures
        hash_b64(v, hash_from_b64(v, s)->0) == s,
{
    let t = b64_decode(s)->0;
    lemma_encode_decode(s);
    let x = untransposed(v, t);
    assert forall|i: int| 0 <= i < t.len() implies #[trigger] transposed(v, x)[i] == t[i] by {
        lemma_indices(v, i as nat);
    }
    assert(transposed(v, x) =~= t);
}

fn source_index_of(v: ShaVariant, i: usize) -> (r: usize)
    requires
        i < v.block_size(),
    ensures
        r == source_index(v, i as nat),
{
    match v {
        ShaVariant::Sha512 => {
            if i >= 63 {
                i
            } else {
                let k = i / 3;
                let r = i % 3;
                k + 21 * ((k + 5 - r) % 3)
            }
        },
        ShaVariant::Sha256 => {
            if i >= 30 {
                i
            } else {
                let k = i / 3;
                let r = i % 3;
                k + 10 * ((8 - r - k % 3) % 3)
            }
        },
    }
}

fn target_index_of(v: ShaVariant, j: usize) -> (r: usize)
    requires
        j < v.block_size(),
    ensures
        r == target_index(v, j as nat),
{
    match v {
        ShaVariant::Sha512 => {
            if j >= 63 {
                j
            } else {
                let k = j % 21;
                let m = j / 21;
                3 * k + (k + 5 - m) % 3
            }
        },
        ShaVariant::Sha256 => {
            if j >= 30 {
                j
            } else {
                let k = j % 10;
                let m = j / 10;
                3 * k + (8 - k % 3 - m) % 3
            }
        },
    }
}

/// Textual form of a crypt digest of either variant.
pub(crate) fn encode_hash(v: ShaVariant, source: &[u8]) -> (out: Vec<u8>)
    requires
        source@.len() == v.block_size(),
    ensures
        out@ == hash_b64(v, source@),
        out@.len() == encoded_len(v.block_size()),
{
    let bs = source.len();
    let mut t: Vec<u8> = Vec::new();
    let mut i: usize = 0;
    while i < bs
        invariant
            bs == source@.len() == v.block_size(),
            i <= bs,
            t@.len() == i,
            forall|k: int| 0 <= k < i ==> t@[k] == source@[source_index(v, k as nat) as int],
        decreases bs - i,
    {
        proof {
            lemma_indices(v, i as nat);
        }
        let src = source_index_of(v, i);
        t.push(source[src]);
        i += 1;
    }
    assert(t@ =~= transposed(v, source@));
    proof {
        lemma_encode_shape(t@);
    }
    encode(t.as_slice())
}

/// Reads back a crypt digest of either variant from its textual form.
pub(crate) fn decode_hash(v: ShaVariant, source: &[u8]) -> (res: Option<Vec<u8>>)
    ensures
        match res {
            Some(x) => hash_from_b64(v, source@) == Some(x@) && x@.len() == v.block_size(),
            None => hash_from_b64(v, source@) is None,
        },
{
    let bs: usize = match v {
        ShaVariant::Sha512 => BLOCK_SIZE_SHA512,
        ShaVariant::Sha256 => BLOCK_SIZE_SHA256,
    };
    match decode(source) {
        None => None,
        Some(t) => {
            if t.len() != bs {
                return None;
            }
            let mut x: Vec<u8> = Vec::new();
            let mut j: usize = 0;
            while j < bs
                invariant
                    bs == t@.len() == v.block_size(),
                    j <= bs,
                    x@.len() == j,
                    forall|k: int| 0 <= k < j ==> x@[k] == t@[target_index(v, k as nat) as int],
                decreases bs - j,
            {
                proof {
                    lemma_indices(v, j as nat);
                }
                let pos = target_index_of(v, j);
                x.push(t[pos]);
                j += 1;
            }
            assert(x@ =~= untransposed(v, t@));
            Some(x)
        },
    }
}

/// Textual form of a SHA-512 crypt digest.
pub fn encode_sha512(source: &[u8]) -> (out: [u8; PW_SIZE_SHA512])
    requires
        source@.len() == BLOCK_SIZE_SHA512,
    ensures
        out@ == hash_b64(ShaVariant::Sha512, source@),
{
    let v = encode_hash(ShaVariant::Sha512, source);
    let mut out = [0u8; PW_SIZE_SHA512];
    let mut i: usize = 0;
    while i < PW_SIZE_SHA512
        invariant
            i <= PW_SIZE_SHA512,
            v@.len() == PW_SIZE_SHA512,
            forall|j: int| 0 <= j < i ==> out@[j] == v@[j],
        decreases PW_SIZE_SHA512 - i,
    {
        out[i] = v[i];
        i += 1;
    }
    assert(out@ =~= v@);
    out
}

/// Textual form of a SHA-256 crypt digest.
pub fn encode_sha256(source: &[u8]) -> (out: [u8; PW_SIZE_SHA256])
    requires
        source@.len() == BLOCK_SIZE_SHA256,
    ensures
        out@ == hash_b64(ShaVariant::Sha256, source@),
{
    let v = encode_hash(ShaVariant::Sha256, source);
    let mut out = [0u8; PW_SIZE_SHA256];
    let mut i: usize = 0;
    while i < PW_SIZE_SHA256
        invariant
            i <= PW_SIZE_SHA256,
            v@.len() == PW_SIZE_SHA256,
            forall|j: int| 0 <= j < i ==> out@[j] == v@[j],
        decreases PW_SIZE_SHA256 - i,
    {
        out[i] = v[i];
        i += 1;
    }
    assert(out@ =~= v@);
    out
}

/// Reads back a SHA-512 crypt digest from its textual form.
pub fn decode_sha512(source: &[u8]) -> (res: Result<[u8; BLOCK_SIZE_SHA512], DecodeError>)
    ensures
        match res {
            Ok(x) => hash_from_b64(ShaVariant::Sha512, source@) == Some(x@),
            Err(_) => hash_from_b64(ShaVariant::Sha512, source@) is None,
        },
{
    match decode_hash(ShaVariant::Sha512, source) {
        None => Err(DecodeError),
        Some(x) => {
            let mut out = [0u8; BLOCK_SIZE_SHA512];
            let mut i: usize = 0;
            while i < BLOCK_SIZE_SHA512
                invariant
                    i <= BLOCK_SIZE_SHA512,
                    x@.len() == BLOCK_SIZE_SHA512,
                    forall|j: int| 0 <= j < i ==> out@[j] == x@[j],
                decreases BLOCK_SIZE_SHA512 - i,
            {
                out[i] = x[i];
                i += 1;
            }
            assert(out@ =~= x@);
            Ok(out)
        },
    }
}

/// Reads back a SHA-256 crypt digest from its textual form.
pub fn decode_sha256(source: &[u8]) -> (res: Result<[u8; BLOCK_SIZE_SHA256], DecodeError>)
    ensures
        match res {
            Ok(x) => hash_from_b64(ShaVariant::Sha256, source@) == Some(x@),
            Err(_) => hash_from_b64(ShaVariant::Sha256, source@) is None,
        },
{
    match decode_hash(ShaVariant::Sha256, source) {
        None => Err(DecodeError),
        Some(x) => {
            let mut out = [0u8; BLOCK_SIZE_SHA256];
            let mut i: usize = 0;
            while i < BLOCK_SIZE_SHA256
                invariant
                    i <= BLOCK_SIZE_SHA256,
                    x@.len() == BLOCK_SIZE_SHA256,
                    forall|j: int| 0 <= j < i ==> out@[j] == x@[j],
                decreases BLOCK_SIZE_SHA256 - i,
            {
                out[i] = x[i];
                i += 1;
            }
            assert(out@ =~= x@);
            Ok(out)
        },
    }
}

} // verus!
