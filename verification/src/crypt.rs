//! The SHA-crypt algorithm (SHA-256 and SHA-512 variants).
use crate::digest::{Sha256Hasher, Sha512Hasher, sha256, sha256_absorbed, sha512, sha512_absorbed};
use crate::defs::{BLOCK_SIZE_SHA256, BLOCK_SIZE_SHA512};
use crate::b64::{encode_sha256, encode_sha512, hash_b64, is_b64_char, lemma_encode_shape, transposed};
use crate::params::{Sha256Params, Sha512Params};
use crate::text::{is_ascii_bytes, lemma_ascii_valid_utf8, string_from_utf8};
use vstd::utf8::encode_utf8;
use vstd::prelude::*;

verus! {

/// Which SHA-2 function a SHA-crypt computation is built on.
#[derive(Clone, Copy, Debug, PartialEq, Eq)]
pub enum ShaVariant {
    Sha256,
    Sha512,
}

impl ShaVariant {
    /// The digest function of this variant.
    pub open spec fn hash(self, data: Seq<u8>) -> Seq<u8> {
        match self {
            ShaVariant::Sha256 => sha256(data)@,
            ShaVariant::Sha512 => sha512(data)@,
        }
    }

    /// Every digest has the block size as length.
    pub proof fn lemma_hash_len(self, data: Seq<u8>)
        ensures
            self.hash(data).len() == self.block_size(),
    {
        match self {
            ShaVariant::Sha256 => vstd::array::array_len_matches_n(&sha256(data)),
            ShaVariant::Sha512 => vstd::array::array_len_matches_n(&sha512(data)),
        }
    }

    /// Digest length in bytes.
    pub open spec fn block_size(self) -> nat {
        match self {
            ShaVariant::Sha256 => 32,
            ShaVariant::Sha512 => 64,
        }
    }
}

/// `s` concatenated with itself `n` times.
pub open spec fn repeat(s: Seq<u8>, n: nat) -> Seq<u8>
    decreases n,
{
    if n == 0 {
        Seq::empty()
    } else {
        repeat(s, (n - 1) as nat) + s
    }
}

/// A byte sequence of length `len` made of whole copies of `fill`,
/// followed by the prefix of `fill` that is left over.
pub open spec fn byte_seq(len: nat, fill: Seq<u8>) -> Seq<u8> {
    repeat(fill, len / fill.len()) + fill.take((len % fill.len()) as int)
}

/// The bytes added for the binary representation of `n` (least
/// significant bit first): `b` for each set bit, `pw` for each clear bit.
pub open spec fn length_bits_part(n: nat, b: Seq<u8>, pw: Seq<u8>) -> Seq<u8>
    decreases n,
{
    if n == 0 {
        Seq::empty()
    } else {
        (if n % 2 == 1 { b } else { pw }) + length_bits_part(n / 2, b, pw)
    }
}

/// Digest B: hash of password, salt, password.
pub open spec fn digest_b(v: ShaVariant, pw: Seq<u8>, salt: Seq<u8>) -> Seq<u8> {
    v.hash(pw + salt + pw)
}

/// Digest A, the starting value of the rounds.
pub open spec fn digest_a(v: ShaVariant, pw: Seq<u8>, salt: Seq<u8>) -> Seq<u8> {
    let b = digest_b(v, pw, salt);
    let bs = v.block_size();
    v.hash(
        pw + salt + repeat(b, pw.len() / bs) + b.take((pw.len() % bs) as int)
            + length_bits_part(pw.len(), b, pw),
    )
}

/// The salt actually used: at most its first 16 bytes.
pub open spec fn effective_salt(salt: Seq<u8>) -> Seq<u8> {
    if salt.len() <= 15 {
        salt
    } else {
        salt.take(16)
    }
}

/// Byte sequence P, derived from the password.
pub open spec fn p_bytes(v: ShaVariant, pw: Seq<u8>) -> Seq<u8> {
    byte_seq(pw.len(), v.hash(repeat(pw, pw.len())))
}

/// Byte sequence S, derived from the salt and the first byte of digest A.
pub open spec fn s_bytes(v: ShaVariant, salt: Seq<u8>, a: Seq<u8>) -> Seq<u8> {
    byte_seq(salt.len(), v.hash(repeat(salt, (16 + a[0]) as nat)))
}

/// What round `i` hashes, given the previous result `c`.
pub open spec fn round_input(i: nat, c: Seq<u8>, p: Seq<u8>, s: Seq<u8>) -> Seq<u8> {
    (if i % 2 == 1 { p } else { c })
        + (if i % 3 != 0 { s } else { Seq::empty() })
        + (if i % 7 != 0 { p } else { Seq::empty() })
        + (if i % 2 == 1 { c } else { p })
}

/// The result after `n` rounds starting from `a`.
pub open spec fn apply_rounds(v: ShaVariant, a: Seq<u8>, p: Seq<u8>, s: Seq<u8>, n: nat) -> Seq<u8>
    decreases n,
{
    if n == 0 {
        a
    } else {
        v.hash(round_input((n - 1) as nat, apply_rounds(v, a, p, s, (n - 1) as nat), p, s))
    }
}

/// The raw SHA-crypt hash of `pw` with `salt` and `rounds` rounds.
pub open spec fn sha_crypt(v: ShaVariant, pw: Seq<u8>, salt: Seq<u8>, rounds: nat) -> Seq<u8> {
    let salt = effective_salt(salt);
    let a = digest_a(v, pw, salt);
    apply_rounds(v, a, p_bytes(v, pw), s_bytes(v, salt, a), rounds)
}

/// A running hash computation of either variant.
enum Hasher {
    Sha256(Sha256Hasher),
    Sha512(Sha512Hasher),
}

impl Hasher {
    spec fn variant(&self) -> ShaVariant {
        match self {
            Hasher::Sha256(_) => ShaVariant::Sha256,
            Hasher::Sha512(_) => ShaVariant::Sha512,
        }
    }

    spec fn absorbed(&self) -> Seq<u8> {
        match self {
            Hasher::Sha256(h) => sha256_absorbed(*h),
            Hasher::Sha512(h) => sha512_absorbed(*h),
        }
    }

    fn new(v: ShaVariant) -> (h: Self)
        ensures
            h.variant() == v,
            h.absorbed() == Seq::<u8>::empty(),
    {
        match v {
            ShaVariant::Sha256 => Hasher::Sha256(Sha256Hasher::new()),
            ShaVariant::Sha512 => Hasher::Sha512(Sha512Hasher::new()),
        }
    }

    fn update(&mut self, data: &[u8])
        ensures
            final(self).variant() == old(self).variant(),
            final(self).absorbed() == old(self).absorbed() + data@,
    {
        match self {
            Hasher::Sha256(h) => h.update(data),
            Hasher::Sha512(h) => h.update(data),
        }
    }

    fn finalize(self) -> (out: Vec<u8>)
        ensures
            out@ == self.variant().hash(self.absorbed()),
            out@.len() == self.variant().block_size(),
    {
        match self {
            Hasher::Sha256(h) => {
                let d = h.finalize();
                vstd::slice::slice_to_vec(d.as_slice())
            },
            Hasher::Sha512(h) => {
                let d = h.finalize();
                vstd::slice::slice_to_vec(d.as_slice())
            },
        }
    }
}

fn block_size(v: ShaVariant) -> (n: usize)
    ensures
        n == v.block_size(),
{
    match v {
        ShaVariant::Sha256 => 32,
        ShaVariant::Sha512 => 64,
    }
}

/// Builds a byte sequence of length `len` from repeated copies of `fill_from`.
pub fn produce_byte_seq(len: usize, fill_from: &[u8]) -> (seq: Vec<u8>)
    requires
        fill_from@.len() > 0,
    ensures
        seq@ == byte_seq(len as nat, fill_from@),
{
    let bs = fill_from.len();
    let mut seq: Vec<u8> = Vec::new();
    let blocks = len / bs;
    let mut k: usize = 0;
    while k < blocks
        invariant
            bs == fill_from@.len(),
            k <= blocks,
            seq@ == repeat(fill_from@, k as nat),
        decreases blocks - k,
    {
        let ghost prev = seq@;
        let mut j: usize = 0;
        while j < bs
            invariant
                bs == fill_from@.len(),
                j <= bs,
                seq@ == prev + fill_from@.take(j as int),
            decreases bs - j,
        {
            seq.push(fill_from[j]);
            j += 1;
            assert(seq@ =~= prev + fill_from@.take(j as int));
        }
        assert(fill_from@.take(bs as int) =~= fill_from@);
        k += 1;
    }
    let rest = len % bs;
    let ghost whole = seq@;
    let mut j: usize = 0;
    while j < rest
        invariant
            bs == fill_from@.len(),
            rest < bs,
            j <= rest,
            seq@ == whole + fill_from@.take(j as int),
        decreases rest - j,
    {
        seq.push(fill_from[j]);
        j += 1;
        assert(seq@ =~= whole + fill_from@.take(j as int));
    }
    seq
}

/// Appends every byte of `data` to `out`.
pub(crate) fn push_all(out: &mut Vec<u8>, data: &[u8])
    ensures
        final(out)@ == old(out)@ + data@,
{
    let mut j: usize = 0;
    while j < data.len()
        invariant
            j <= data@.len(),
            out@ == old(out)@ + data@.take(j as int),
        decreases data@.len() - j,
    {
        out.push(data[j]);
        j += 1;
        assert(out@ =~= old(out)@ + data@.take(j as int));
    }
    assert(data@.take(data@.len() as int) =~= data@);
}

/// Digest A of SHA-crypt (steps 1 to 12 of the algorithm).
fn crypt_intermediate(v: ShaVariant, password: &[u8], salt: &[u8]) -> (a: Vec<u8>)
    ensures
        a@ == digest_a(v, password@, salt@),
        a@.len() == v.block_size(),
{
    let pw_len = password.len();
    let bs = block_size(v);

    let mut hasher = Hasher::new(v);
    hasher.update(password);
    hasher.update(salt);

    let mut hasher_alt = Hasher::new(v);
    hasher_alt.update(password);
    hasher_alt.update(salt);
    hasher_alt.update(password);
    let db = hasher_alt.finalize();
    assert(db@ == digest_b(v, password@, salt@)) by {
        assert(Seq::<u8>::empty() + password@ + salt@ + password@ =~= password@ + salt@ + password@);
    }

    let ghost base = password@ + salt@;
    assert(hasher.absorbed() =~= base);
    let blocks = pw_len / bs;
    let mut k: usize = 0;
    while k < blocks
        invariant
            k <= blocks,
            hasher.variant() == v,
            hasher.absorbed() == base + repeat(db@, k as nat),
        decreases blocks - k,
    {
        hasher.update(db.as_slice());
        k += 1;
        assert(hasher.absorbed() =~= base + repeat(db@, k as nat));
    }
    hasher.update(&db.as_slice()[0..(pw_len % bs)]);

    let ghost base2 = hasher.absorbed();
    let mut n = pw_len;
    assert(hasher.absorbed() + length_bits_part(n as nat, db@, password@) =~= base2
        + length_bits_part(pw_len as nat, db@, password@));
    while n > 0
        invariant
            hasher.variant() == v,
            hasher.absorbed() + length_bits_part(n as nat, db@, password@) == base2
                + length_bits_part(pw_len as nat, db@, password@),
        decreases n,
    {
        let ghost before = hasher.absorbed();
        if n % 2 == 1 {
            hasher.update(db.as_slice());
        } else {
            hasher.update(password);
        }
        assert(hasher.absorbed() + length_bits_part((n / 2) as nat, db@, password@) =~= before
            + length_bits_part(n as nat, db@, password@));
        n = n / 2;
    }
    assert(hasher.absorbed() =~= base2 + length_bits_part(pw_len as nat, db@, password@));
    assert(hasher.absorbed() =~= password@ + salt@ + repeat(db@, pw_len as nat / v.block_size())
        + db@.take((pw_len as nat % v.block_size()) as int)
        + length_bits_part(pw_len as nat, db@, password@));
    hasher.finalize()
}

/// The raw SHA-crypt hash of either variant, for any number of rounds.
pub(crate) fn sha_crypt_raw(v: ShaVariant, password: &[u8], full_salt: &[u8], rounds: usize) -> (c: Vec<u8>)
    ensures
        c@ == sha_crypt(v, password@, full_salt@, rounds as nat),
        c@.len() == v.block_size(),
{
    let pw_len = password.len();
    let salt = if full_salt.len() <= 15 {
        full_salt
    } else {
        &full_salt[0..16]
    };
    assert(salt@ == effective_salt(full_salt@)) by {
        if full_salt@.len() > 15 {
            assert(salt@ =~= full_salt@.take(16));
        }
    }
    let salt_len = salt.len();

    let digest_a = crypt_intermediate(v, password, salt);

    let mut hasher_alt = Hasher::new(v);
    let mut k: usize = 0;
    while k < pw_len
        invariant
            k <= pw_len,
            hasher_alt.variant() == v,
            hasher_alt.absorbed() == repeat(password@, k as nat),
        decreases pw_len - k,
    {
        hasher_alt.update(password);
        k += 1;
    }
    let dp = hasher_alt.finalize();
    let p_vec = produce_byte_seq(pw_len, dp.as_slice());

    let mut hasher_alt = Hasher::new(v);
    let salt_copies: usize = 16 + digest_a[0] as usize;
    let mut k: usize = 0;
    while k < salt_copies
        invariant
            k <= salt_copies,
            hasher_alt.variant() == v,
            hasher_alt.absorbed() == repeat(salt@, k as nat),
        decreases salt_copies - k,
    {
        hasher_alt.update(salt);
        k += 1;
    }
    let ds = hasher_alt.finalize();
    let s_vec = produce_byte_seq(salt_len, ds.as_slice());

    let ghost a = digest_a@;
    let mut digest_c = digest_a;
    let mut i: usize = 0;
    while i < rounds
        invariant
            i <= rounds,
            digest_c@ == apply_rounds(v, a, p_vec@, s_vec@, i as nat),
            digest_c@.len() == v.block_size(),
        decreases rounds - i,
    {
        let mut hasher = Hasher::new(v);
        if i % 2 == 1 {
            hasher.update(p_vec.as_slice());
        } else {
            hasher.update(digest_c.as_slice());
        }
        if i % 3 != 0 {
            hasher.update(s_vec.as_slice());
        }
        if i % 7 != 0 {
            hasher.update(p_vec.as_slice());
        }
        if i % 2 == 1 {
            hasher.update(digest_c.as_slice());
        } else {
            hasher.update(p_vec.as_slice());
        }
        assert(hasher.absorbed() =~= round_input(i as nat, digest_c@, p_vec@, s_vec@));
        digest_c = hasher.finalize();
        i += 1;
    }
    digest_c
}

/// Copies a 64-byte vector into an array.
fn to_array_64(v: &Vec<u8>) -> (out: [u8; BLOCK_SIZE_SHA512])
    requires
        v@.len() == BLOCK_SIZE_SHA512,
    ensures
        out@ == v@,
{
    let mut out = [0u8; BLOCK_SIZE_SHA512];
    let mut i: usize = 0;
    while i < BLOCK_SIZE_SHA512
        invariant
            i <= BLOCK_SIZE_SHA512,
            v@.len() == BLOCK_SIZE_SHA512,
            forall|j: int| 0 <= j < i ==> out@[j] == v@[j],
        decreases BLOCK_SIZE_SHA512 - i,
    {
        out[i] = v[i];
        i += 1;
    }
    assert(out@ =~= v@);
    out
}

/// Copies a 32-byte vector into an array.
fn to_array_32(v: &Vec<u8>) -> (out: [u8; BLOCK_SIZE_SHA256])
    requires
        v@.len() == BLOCK_SIZE_SHA256,
    ensures
        out@ == v@,
{
    let mut out = [0u8; BLOCK_SIZE_SHA256];
    let mut i: usize = 0;
    while i < BLOCK_SIZE_SHA256
        invariant
            i <= BLOCK_SIZE_SHA256,
            v@.len() == BLOCK_SIZE_SHA256,
            forall|j: int| 0 <= j < i ==> out@[j] == v@[j],
        decreases BLOCK_SIZE_SHA256 - i,
    {
        out[i] = v[i];
        i += 1;
    }
    assert(out@ =~= v@);
    out
}

/// The SHA-512 crypt function, returned as raw bytes.
///
/// Only the first 16 bytes of `salt` are used.
pub fn sha512_crypt(password: &[u8], salt: &[u8], params: &Sha512Params) -> (out: [u8; BLOCK_SIZE_SHA512])
    ensures
        out@ == sha_crypt(ShaVariant::Sha512, password@, salt@, params.round_count()),
{
    let c = sha_crypt_raw(ShaVariant::Sha512, password, salt, params.rounds());
    to_array_64(&c)
}

/// The SHA-256 crypt function, returned as raw bytes.
///
/// Only the first 16 bytes of `salt` are used.
pub fn sha256_crypt(password: &[u8], salt: &[u8], params: &Sha256Params) -> (out: [u8; BLOCK_SIZE_SHA256])
    ensures
        out@ == sha_crypt(ShaVariant::Sha256, password@, salt@, params.round_count()),
{
    let c = sha_crypt_raw(ShaVariant::Sha256, password, salt, params.rounds());
    to_array_32(&c)
}

/// The textual form of a digest is ASCII.
proof fn lemma_hash_b64_ascii(v: ShaVariant, x: Seq<u8>)
    ensures
        is_ascii_bytes(hash_b64(v, x)),
{
    lemma_encode_shape(transposed(v, x));
    assert forall|i: int| 0 <= i < hash_b64(v, x).len() implies #[trigger] hash_b64(v, x)[i] < 128 by {
        assert(is_b64_char(hash_b64(v, x)[i]));
    }
}

/// Same as `sha512_crypt`, but in the crypt base-64 text form.
pub fn sha512_crypt_b64(password: &[u8], salt: &[u8], params: &Sha512Params) -> (s: String)
    ensures
        encode_utf8(s@) == hash_b64(
            ShaVariant::Sha512,
            sha_crypt(ShaVariant::Sha512, password@, salt@, params.round_count()),
        ),
{
    let output = sha512_crypt(password, salt, params);
    let text = encode_sha512(output.as_slice());
    proof {
        lemma_hash_b64_ascii(ShaVariant::Sha512, output@);
        lemma_ascii_valid_utf8(text@);
    }
    string_from_utf8(vstd::slice::slice_to_vec(text.as_slice()))
}

/// Same as `sha256_crypt`, but in the crypt base-64 text form.
pub fn sha256_crypt_b64(password: &[u8], salt: &[u8], params: &Sha256Params) -> (s: String)
    ensures
        encode_utf8(s@) == hash_b64(
            ShaVariant::Sha256,
            sha_crypt(ShaVariant::Sha256, password@, salt@, params.round_count()),
        ),
{
    let output = sha256_crypt(password, salt, params);
    let text = encode_sha256(output.as_slice());
    proof {
        lemma_hash_b64_ascii(ShaVariant::Sha256, output@);
        lemma_ascii_valid_utf8(text@);
    }
    string_from_utf8(vstd::slice::slice_to_vec(text.as_slice()))
}

/// A SHA-crypt hash has the digest length of its variant.
pub proof fn lemma_sha_crypt_len(v: ShaVariant, pw: Seq<u8>, salt: Seq<u8>, rounds: nat)
    ensures
        sha_crypt(v, pw, salt, rounds).len() == v.block_size(),
{
    let salt = effective_salt(salt);
    let a = digest_a(v, pw, salt);
    if rounds == 0 {
        v.lemma_hash_len(
            pw + salt + repeat(digest_b(v, pw, salt), pw.len() / v.block_size()) + digest_b(v, pw, salt).take(
                (pw.len() % v.block_size()) as int,
            ) + length_bits_part(pw.len(), digest_b(v, pw, salt), pw),
        );
    } else {
        let p = p_bytes(v, pw);
        let s = s_bytes(v, salt, a);
        v.lemma_hash_len(round_input((rounds - 1) as nat, apply_rounds(v, a, p, s, (rounds - 1) as nat), p, s));
    }
}

/// Only the first 16 bytes of the salt matter: a longer salt gives the
/// same hash as its first 16 bytes.
pub proof fn lemma_salt_truncation(v: ShaVariant, pw: Seq<u8>, salt: Seq<u8>, rounds: nat)
    requires
        salt.len() >= 16,
    ensures
        sha_crypt(v, pw, salt, rounds) == sha_crypt(v, pw, salt.take(16), rounds),
{
    assert(effective_salt(salt) =~= effective_salt(salt.take(16)));
}

/// `s` cycled to `len` bytes: byte `i` is `s[i % s.len()]`.
pub open spec fn cycled(s: Seq<u8>, len: nat) -> Seq<u8> {
    Seq::new(len, |i: int| s[i % (s.len() as int)])
}

/// The block added for the bit of `n` at position `k` (when `n` has one
/// there): `b` for a set bit, `pw` for a clear bit, nothing above the top bit.
pub open spec fn bit_block(n: nat, k: nat, b: Seq<u8>, pw: Seq<u8>) -> Seq<u8> {
    let m = n / vstd::arithmetic::power2::pow2(k);
    if m == 0 {
        Seq::empty()
    } else if m % 2 == 1 {
        b
    } else {
        pw
    }
}

proof fn lemma_cycled_append(f: Seq<u8>, len: nat, r: nat)
    requires
        f.len() > 0,
        len % f.len() == 0,
        r <= f.len(),
    ensures
        cycled(f, len) + f.take(r as int) == cycled(f, len + r),
{
    let bs = f.len() as int;
    let q = len as int / bs;
    vstd::arithmetic::div_mod::lemma_fundamental_div_mod(len as int, bs);
    assert forall|i: int| len <= i < len + r implies #[trigger] cycled(f, len + r)[i] == f[i - len] by {
        vstd::arithmetic::div_mod::lemma_mod_multiples_vanish(q, i - len, bs);
        vstd::arithmetic::div_mod::lemma_small_mod((i - len) as nat, bs as nat);
    }
    assert(cycled(f, len) + f.take(r as int) =~= cycled(f, len + r));
}

proof fn lemma_repeat_cycled(f: Seq<u8>, q: nat)
    ensures
        repeat(f, q) == cycled(f, q * f.len()),
    decreases q,
{
    if q == 0 {
        assert(cycled(f, 0) =~= Seq::<u8>::empty());
    } else if f.len() == 0 {
        lemma_repeat_cycled(f, (q - 1) as nat);
        assert(q * f.len() == 0);
        assert(repeat(f, q) =~= Seq::<u8>::empty());
        assert(cycled(f, 0) =~= Seq::<u8>::empty());
    } else {
        let bs = f.len();
        lemma_repeat_cycled(f, (q - 1) as nat);
        let len = ((q - 1) * bs) as nat;
        vstd::arithmetic::div_mod::lemma_mod_multiples_basic((q - 1) as int, bs as int);
        lemma_cycled_append(f, len, bs);
        assert(f.take(bs as int) =~= f);
        assert(len + bs == q * bs) by (nonlinear_arith)
            requires
                len == (q - 1) * bs,
                q > 0,
        ;
    }
}

proof fn lemma_byte_seq_cycled(len: nat, fill: Seq<u8>)
    requires
        fill.len() > 0,
    ensures
        byte_seq(len, fill) == cycled(fill, len),
{
    let bs = fill.len();
    let q = len / bs;
    let r = len % bs;
    lemma_repeat_cycled(fill, q);
    vstd::arithmetic::div_mod::lemma_fundamental_div_mod(len as int, bs as int);
    vstd::arithmetic::div_mod::lemma_mod_multiples_basic(q as int, bs as int);
    assert(q * bs + r == len) by (nonlinear_arith)
        requires
            len == bs * q + r,
    ;
    lemma_cycled_append(fill, q * bs, r);
}

proof fn lemma_pow2_above(k: nat)
    ensures
        k < vstd::arithmetic::power2::pow2(k),
    decreases k,
{
    if k == 0 {
        vstd::arithmetic::power2::lemma2_to64();
    } else {
        lemma_pow2_above((k - 1) as nat);
        vstd::arithmetic::power2::lemma_pow2_unfold(k);
    }
}

proof fn lemma_bit_blocks(n: nat, m: nat, b: Seq<u8>, pw: Seq<u8>)
    requires
        n < vstd::arithmetic::power2::pow2(m),
    ensures
        Seq::new(m, |k: int| bit_block(n, k as nat, b, pw)).flatten() == length_bits_part(n, b, pw),
    decreases m,
{
    let blocks = Seq::new(m, |k: int| bit_block(n, k as nat, b, pw));
    if m == 0 {
        vstd::arithmetic::power2::lemma2_to64();
    } else {
        vstd::arithmetic::power2::lemma2_to64();
        vstd::arithmetic::power2::lemma_pow2_unfold(m);
        lemma_bit_blocks(n / 2, (m - 1) as nat, b, pw);
        let rest = Seq::new((m - 1) as nat, |k: int| bit_block(n / 2, k as nat, b, pw));
        assert forall|k: int| 0 <= k < m - 1 implies #[trigger] blocks.drop_first()[k] == rest[k] by {
            vstd::arithmetic::power2::lemma_pow2_unfold((k + 1) as nat);
            vstd::arithmetic::power2::lemma_pow2_pos(k as nat);
            vstd::arithmetic::div_mod::lemma_div_denominator(
                n as int,
                2,
                vstd::arithmetic::power2::pow2(k as nat) as int,
            );
        }
        assert(blocks.drop_first() =~= rest);
        assert(blocks.first() == bit_block(n, 0, b, pw));
        assert(n / vstd::arithmetic::power2::pow2(0) == n);
    }
}

/// A hash with no rounds is digest A: the hash of the password, the salt
/// (at most its first 16 bytes), the password's byte length worth of digest B
/// (B cycled), and for each bit of the byte length, lowest first, B for a one
/// and the password for a zero; B is the hash of password, salt, password.
pub proof fn lemma_crypt_start(v: ShaVariant, pw: Seq<u8>, salt: Seq<u8>)
    ensures
        ({
            let s = if salt.len() <= 16 {
                salt
            } else {
                salt.take(16)
            };
            let n = pw.len();
            let b = v.hash(pw + s + pw);
            sha_crypt(v, pw, salt, 0) == v.hash(
                pw + s + cycled(b, n) + Seq::new(n + 1, |k: int| bit_block(n, k as nat, b, pw)).flatten(),
            )
        }),
{
    let s = if salt.len() <= 16 {
        salt
    } else {
        salt.take(16)
    };
    assert(effective_salt(salt) =~= s);
    let n = pw.len();
    let b = v.hash(pw + s + pw);
    v.lemma_hash_len(pw + s + pw);
    let bs = v.block_size();
    lemma_byte_seq_cycled(n, b);
    lemma_pow2_above(n + 1);
    lemma_bit_blocks(n, n + 1, b, pw);
    assert(repeat(b, n / bs) + b.take((n % bs) as int) == byte_seq(n, b));
    assert(pw + s + repeat(b, n / bs) + b.take((n % bs) as int) + length_bits_part(n, b, pw) =~= pw + s
        + cycled(b, n) + Seq::new(n + 1, |k: int| bit_block(n, k as nat, b, pw)).flatten());
}

/// Each round hashes, from the previous result C: P if the round number is
/// odd and C otherwise; then S unless it is a multiple of 3; then P unless it
/// is a multiple of 7; then C if odd and P otherwise. P is the password's
/// byte length worth of the hash of the password repeated once per byte; S is
/// the salt's length worth of the hash of the salt repeated 16 + A[0] times
/// (16 to 271 times), A being the hash with no rounds.
pub proof fn lemma_crypt_round(v: ShaVariant, pw: Seq<u8>, salt: Seq<u8>, r: nat)
    ensures
        ({
            let s = if salt.len() <= 16 {
                salt
            } else {
                salt.take(16)
            };
            let n = pw.len();
            let a0 = sha_crypt(v, pw, salt, 0)[0] as nat;
            let dp = v.hash(cycled(pw, n * n));
            let p = cycled(dp, n);
            let ds = v.hash(cycled(s, s.len() * (16 + a0)));
            let sq = cycled(ds, s.len());
            let c = sha_crypt(v, pw, salt, r);
            &&& 16 <= 16 + a0 <= 271
            &&& sha_crypt(v, pw, salt, r + 1) == v.hash(
                (if r % 2 == 1 {
                    p
                } else {
                    c
                }) + (if r % 3 != 0 {
                    sq
                } else {
                    Seq::empty()
                }) + (if r % 7 != 0 {
                    p
                } else {
                    Seq::empty()
                }) + (if r % 2 == 1 {
                    c
                } else {
                    p
                }),
            )
        }),
{
    let s = if salt.len() <= 16 {
        salt
    } else {
        salt.take(16)
    };
    assert(effective_salt(salt) =~= s);
    let n = pw.len();
    let a = digest_a(v, pw, s);
    let a0 = a[0] as nat;
    lemma_repeat_cycled(pw, n);
    assert(n * n == n * pw.len());
    let dp = v.hash(cycled(pw, n * n));
    v.lemma_hash_len(cycled(pw, n * n));
    lemma_byte_seq_cycled(n, dp);
    lemma_repeat_cycled(s, 16 + a0);
    assert((16 + a0) * s.len() == s.len() * (16 + a0)) by (nonlinear_arith);
    let ds = v.hash(cycled(s, s.len() * (16 + a0)));
    v.lemma_hash_len(cycled(s, s.len() * (16 + a0)));
    lemma_byte_seq_cycled(s.len(), ds);
    assert(p_bytes(v, pw) == cycled(dp, n));
    assert(s_bytes(v, s, a) == cycled(ds, s.len()));
}

} // verus!
