//! Full crypt strings `$<id>$[rounds=<N>$]<salt>$<hash>`: making them with a
//! random salt, and checking a password against one.
use crate::b64::{
    b64_char, char_of, decode_hash, encode_hash, hash_b64, hash_from_b64, is_b64_char, lemma_encode_shape,
    lemma_hash_b64_roundtrip, transposed,
};
use crate::crypt::{ShaVariant, lemma_sha_crypt_len, push_all, sha_crypt, sha_crypt_raw};
use crate::decimal::{
    decimal, is_digit, lemma_decimal, lemma_parse_decimal, parse_decimal, parse_usize, push_decimal,
};
use crate::defs::{ROUNDS_DEFAULT, SALT_MAX_LEN};
use crate::errors::{CheckError, CryptError};
use crate::params::{valid_rounds, Sha256Params, Sha512Params};
use crate::text::{is_ascii_bytes, lemma_ascii_valid_utf8, string_from_utf8};
use rand::RngCore;
use subtle::ConstantTimeEq;
use vstd::prelude::*;
use vstd::string::{StringExecFns, StringSliceAdditionalSpecFns};
use vstd::utf8::encode_utf8;

verus! {

/// The byte `$`, which separates the fields.
pub open spec fn dollar() -> u8 {
    36
}

/// `rounds=`, which starts a rounds field.
pub open spec fn rounds_prefix() -> Seq<u8> {
    seq![114u8, 111, 117, 110, 100, 115, 61]
}

/// The identifier field of a variant: `6` for SHA-512, `5` for SHA-256.
pub open spec fn variant_id(v: ShaVariant) -> Seq<u8> {
    match v {
        ShaVariant::Sha512 => seq![54u8],
        ShaVariant::Sha256 => seq![53u8],
    }
}

/// The fields of `s` between the `$` separators (as `str::split('$')`).
pub open spec fn split_fields(s: Seq<u8>) -> Seq<Seq<u8>>
    decreases s.len(),
{
    if s.len() == 0 {
        seq![Seq::empty()]
    } else {
        let init = split_fields(s.drop_last());
        if s.last() == dollar() {
            init.push(Seq::empty())
        } else {
            init.update(init.len() - 1, init.last().push(s.last()))
        }
    }
}

/// Whether `s` begins with `p`.
pub open spec fn starts_with(s: Seq<u8>, p: Seq<u8>) -> bool {
    p.len() <= s.len() && s.take(p.len() as int) == p
}

/// The crypt string for `pw` with `rounds` rounds and `salt`.
pub open spec fn crypt_string(v: ShaVariant, pw: Seq<u8>, rounds: nat, salt: Seq<u8>) -> Seq<u8> {
    seq![dollar()] + variant_id(v) + seq![dollar()] + (if rounds != ROUNDS_DEFAULT {
        rounds_prefix() + decimal(rounds) + seq![dollar()]
    } else {
        Seq::empty()
    }) + salt + seq![dollar()] + hash_b64(v, sha_crypt(v, pw, salt, rounds))
}

/// How a crypt string can be malformed.
#[derive(Clone, Copy, Debug, PartialEq, Eq, Structural)]
pub enum FormatIssue {
    NoLeadingDollar,
    NoIdentifier,
    NoRoundsOrSalt,
    NoSalt,
    RoundsNotNumber,
    NoHash,
    TrailingCharacters,
    InvalidBase64,
}

/// What checking a password against a crypt string comes to.
#[derive(Clone, Copy, Debug, PartialEq, Eq, Structural)]
pub enum CheckOutcome {
    Match,
    Malformed(FormatIssue),
    RoundsOutOfRange,
    Mismatch,
}

/// The result of checking password `pw` against the crypt string `h`.
pub open spec fn check_outcome(v: ShaVariant, pw: Seq<u8>, h: Seq<u8>) -> CheckOutcome {
    let f = split_fields(h);
    if f[0].len() != 0 {
        CheckOutcome::Malformed(FormatIssue::NoLeadingDollar)
    } else if f.len() < 2 || f[1] != variant_id(v) {
        CheckOutcome::Malformed(FormatIssue::NoIdentifier)
    } else if f.len() < 3 {
        CheckOutcome::Malformed(FormatIssue::NoRoundsOrSalt)
    } else {
        let has_rounds = starts_with(f[2], rounds_prefix());
        if has_rounds && f.len() < 4 {
            CheckOutcome::Malformed(FormatIssue::NoSalt)
        } else if has_rounds && parse_usize(f[2].skip(7)) is None {
            CheckOutcome::Malformed(FormatIssue::RoundsNotNumber)
        } else {
            let rounds: nat = if has_rounds {
                parse_usize(f[2].skip(7))->0 as nat
            } else {
                ROUNDS_DEFAULT as nat
            };
            let salt_at: int = if has_rounds {
                3
            } else {
                2
            };
            if f.len() < salt_at + 2 {
                CheckOutcome::Malformed(FormatIssue::NoHash)
            } else if f.len() > salt_at + 2 {
                CheckOutcome::Malformed(FormatIssue::TrailingCharacters)
            } else if !valid_rounds(rounds) {
                CheckOutcome::RoundsOutOfRange
            } else {
                match hash_from_b64(v, f[salt_at + 1]) {
                    None => CheckOutcome::Malformed(FormatIssue::InvalidBase64),
                    Some(x) => if x == sha_crypt(v, pw, f[salt_at], rounds) {
                        CheckOutcome::Match
                    } else {
                        CheckOutcome::Mismatch
                    },
                }
            }
        }
    }
}

/// The message that comes with a format error.
pub open spec fn issue_message(v: ShaVariant, issue: FormatIssue) -> Seq<char> {
    match issue {
        FormatIssue::NoLeadingDollar => "Should start with '$"@,
        FormatIssue::NoIdentifier => match v {
            ShaVariant::Sha512 => "does not contain SHA512 identifier: '$6$'"@,
            ShaVariant::Sha256 => "does not contain SHA256 identifier: '$5$'"@,
        },
        FormatIssue::NoRoundsOrSalt => "Does not contain a rounds or salt nor hash string"@,
        FormatIssue::NoSalt => "Does not contain a salt nor hash string"@,
        FormatIssue::RoundsNotNumber => "rounds= specifier need to be a number"@,
        FormatIssue::NoHash => "Does not contain a hash string"@,
        FormatIssue::TrailingCharacters => "Trailing characters present"@,
        FormatIssue::InvalidBase64 => "invalid B64"@,
    }
}

/// Whether `res` is what a check with outcome `outcome` returns.
pub open spec fn check_result(v: ShaVariant, res: Result<(), CheckError>, outcome: CheckOutcome) -> bool {
    match outcome {
        CheckOutcome::Match => res is Ok,
        CheckOutcome::Malformed(issue) => res matches Err(CheckError::InvalidFormat(m)) && m@
            == issue_message(v, issue),
        CheckOutcome::RoundsOutOfRange => res matches Err(CheckError::Crypt(e)) && e
            == CryptError::RoundsError,
        CheckOutcome::Mismatch => res matches Err(CheckError::HashMismatch),
    }
}

/// Whether `s` holds no `$`.
pub open spec fn no_dollar(s: Seq<u8>) -> bool {
    forall|i: int| 0 <= i < s.len() ==> #[trigger] s[i] != dollar()
}

proof fn lemma_split_plain(s: Seq<u8>)
    requires
        no_dollar(s),
    ensures
        split_fields(s) == seq![s],
    decreases s.len(),
{
    if s.len() > 0 {
        lemma_split_plain(s.drop_last());
        assert(s.drop_last().push(s.last()) =~= s);
        assert(split_fields(s) =~= seq![s]);
    } else {
        assert(s =~= Seq::<u8>::empty());
    }
}

proof fn lemma_split_join(p: Seq<u8>, q: Seq<u8>)
    ensures
        split_fields(p + seq![dollar()] + q) == split_fields(p) + split_fields(q),
    decreases q.len(),
{
    let whole = p + seq![dollar()] + q;
    if q.len() == 0 {
        assert(whole.drop_last() =~= p);
        assert(split_fields(whole) =~= split_fields(p) + split_fields(q));
    } else {
        lemma_split_join(p, q.drop_last());
        assert(whole.drop_last() =~= p + seq![dollar()] + q.drop_last());
        lemma_split_nonempty(q.drop_last());
        lemma_split_nonempty(p);
        assert(split_fields(whole) =~= split_fields(p) + split_fields(q));
    }
}

proof fn lemma_split_nonempty(s: Seq<u8>)
    ensures
        split_fields(s).len() >= 1,
    decreases s.len(),
{
    if s.len() > 0 {
        lemma_split_nonempty(s.drop_last());
    }
}

proof fn lemma_b64_no_dollar(t: Seq<u8>)
    requires
        forall|i: int| 0 <= i < t.len() ==> is_b64_char(#[trigger] t[i]),
    ensures
        no_dollar(t),
{
    assert forall|i: int| 0 <= i < t.len() implies #[trigger] t[i] != dollar() by {
        assert(is_b64_char(t[i]));
    }
}

/// The fields of a crypt string.
proof fn lemma_crypt_string_fields(v: ShaVariant, pw: Seq<u8>, rounds: nat, salt: Seq<u8>)
    requires
        no_dollar(salt),
    ensures
        ({
            let f = split_fields(crypt_string(v, pw, rounds, salt));
            let hb = hash_b64(v, sha_crypt(v, pw, salt, rounds));
            if rounds != ROUNDS_DEFAULT {
                f == seq![Seq::<u8>::empty(), variant_id(v), rounds_prefix() + decimal(rounds), salt, hb]
            } else {
                f == seq![Seq::<u8>::empty(), variant_id(v), salt, hb]
            }
        }),
{
    let x = sha_crypt(v, pw, salt, rounds);
    let hb = hash_b64(v, x);
    lemma_encode_shape(transposed(v, x));
    lemma_b64_no_dollar(hb);
    lemma_split_plain(hb);
    lemma_split_plain(salt);
    let id = variant_id(v);
    assert(no_dollar(id));
    lemma_split_plain(id);
    let e = Seq::<u8>::empty();
    lemma_split_plain(e);
    let d = seq![dollar()];
    let h = crypt_string(v, pw, rounds, salt);
    let tail = salt + d + hb;
    lemma_split_join(salt, hb);
    if rounds != ROUNDS_DEFAULT {
        let dec = decimal(rounds);
        lemma_decimal(rounds);
        let rd = rounds_prefix() + dec;
        assert forall|i: int| 0 <= i < rd.len() implies #[trigger] rd[i] != dollar() by {
            if i >= 7 {
                assert(rd[i] == dec[i - 7]);
                assert(is_digit(dec[i - 7]));
            }
        }
        lemma_split_plain(rd);
        lemma_split_join(rd, tail);
        lemma_split_join(id, rd + d + tail);
        lemma_split_join(e, id + d + (rd + d + tail));
        assert(h =~= e + d + (id + d + (rd + d + tail)));
        assert(split_fields(h) =~= seq![e, id, rd, salt, hb]);
    } else {
        lemma_split_join(id, tail);
        lemma_split_join(e, id + d + tail);
        assert(h =~= e + d + (id + d + tail));
        assert(split_fields(h) =~= seq![e, id, salt, hb]);
    }
}

/// Checking a password against a crypt string made for `pw` finds a match
/// exactly when the password has the same hash as `pw` with that salt and
/// those rounds, and a mismatch otherwise: the check reads back the rounds,
/// the salt and the hash that were written.
pub proof fn lemma_check_crypt_string(
    v: ShaVariant,
    pw: Seq<u8>,
    rounds: nat,
    salt: Seq<u8>,
    candidate: Seq<u8>,
)
    requires
        valid_rounds(rounds),
        forall|i: int| 0 <= i < salt.len() ==> is_b64_char(#[trigger] salt[i]),
    ensures
        check_outcome(v, candidate, crypt_string(v, pw, rounds, salt)) == (if sha_crypt(
            v,
            candidate,
            salt,
            rounds,
        ) == sha_crypt(v, pw, salt, rounds) {
            CheckOutcome::Match
        } else {
            CheckOutcome::Mismatch
        }),
{
    let x = sha_crypt(v, pw, salt, rounds);
    lemma_sha_crypt_len(v, pw, salt, rounds);
    lemma_hash_b64_roundtrip(v, x);
    lemma_b64_no_dollar(salt);
    lemma_crypt_string_fields(v, pw, rounds, salt);
    if rounds != ROUNDS_DEFAULT {
        let rd = rounds_prefix() + decimal(rounds);
        assert(rd.take(7) =~= rounds_prefix());
        assert(rd.skip(7) =~= decimal(rounds));
        lemma_parse_decimal(rounds as usize);
    } else {
        if salt.len() >= 7 {
            assert(is_b64_char(salt[6]));
            assert(salt.take(7)[6] != rounds_prefix()[6]);
        }
        assert(!starts_with(salt, rounds_prefix()));
    }
}

/// The fields of `$<id>$<rd>$<salt>$<hash>` and of `$<id>$<salt>$<hash>`.
proof fn lemma_fields_of(id: Seq<u8>, rd: Seq<u8>, salt: Seq<u8>, hash: Seq<u8>)
    requires
        no_dollar(id),
        no_dollar(rd),
        no_dollar(salt),
        no_dollar(hash),
    ensures
        split_fields(seq![dollar()] + id + seq![dollar()] + rd + seq![dollar()] + salt + seq![dollar()]
            + hash) == seq![Seq::<u8>::empty(), id, rd, salt, hash],
        split_fields(seq![dollar()] + id + seq![dollar()] + salt + seq![dollar()] + hash) == seq![
            Seq::<u8>::empty(),
            id,
            salt,
            hash,
        ],
{
    let d = seq![dollar()];
    let e = Seq::<u8>::empty();
    lemma_split_plain(e);
    lemma_split_plain(id);
    lemma_split_plain(rd);
    lemma_split_plain(salt);
    lemma_split_plain(hash);
    let tail = salt + d + hash;
    lemma_split_join(salt, hash);
    lemma_split_join(rd, tail);
    lemma_split_join(id, rd + d + tail);
    lemma_split_join(e, id + d + (rd + d + tail));
    lemma_split_join(id, tail);
    lemma_split_join(e, id + d + tail);
    assert(d + id + d + rd + d + salt + d + hash =~= e + d + (id + d + (rd + d + tail)));
    assert(d + id + d + salt + d + hash =~= e + d + (id + d + tail));
    assert(split_fields(e + d + (id + d + (rd + d + tail))) =~= seq![e, id, rd, salt, hash]);
    assert(split_fields(e + d + (id + d + tail)) =~= seq![e, id, salt, hash]);
}

/// A `rounds=5000` field checks the same as no rounds field: when it is
/// absent the default of 5000 rounds is read.
pub proof fn lemma_default_rounds_field(v: ShaVariant, pw: Seq<u8>, salt: Seq<u8>, hash: Seq<u8>)
    requires
        no_dollar(salt),
        no_dollar(hash),
        !starts_with(salt, rounds_prefix()),
    ensures
        check_outcome(
            v,
            pw,
            seq![dollar()] + variant_id(v) + seq![dollar()] + (rounds_prefix() + decimal(
                ROUNDS_DEFAULT as nat,
            )) + seq![dollar()] + salt + seq![dollar()] + hash,
        ) == check_outcome(
            v,
            pw,
            seq![dollar()] + variant_id(v) + seq![dollar()] + salt + seq![dollar()] + hash,
        ),
{
    let id = variant_id(v);
    let dec = decimal(ROUNDS_DEFAULT as nat);
    let rd = rounds_prefix() + dec;
    lemma_decimal(ROUNDS_DEFAULT as nat);
    assert forall|i: int| 0 <= i < rd.len() implies #[trigger] rd[i] != dollar() by {
        if i >= 7 {
            assert(rd[i] == dec[i - 7]);
            assert(is_digit(dec[i - 7]));
        }
    }
    assert(no_dollar(id));
    lemma_fields_of(id, rd, salt, hash);
    assert(rd.take(7) =~= rounds_prefix());
    assert(rd.skip(7) =~= dec);
    lemma_parse_decimal(ROUNDS_DEFAULT);
}

/// A crypt string made for a password is accepted for that password.
pub proof fn lemma_check_accepts_crypt_string(v: ShaVariant, pw: Seq<u8>, rounds: nat, salt: Seq<u8>)
    requires
        valid_rounds(rounds),
        forall|i: int| 0 <= i < salt.len() ==> is_b64_char(#[trigger] salt[i]),
    ensures
        check_outcome(v, pw, crypt_string(v, pw, rounds, salt)) == CheckOutcome::Match,
{
    lemma_check_crypt_string(v, pw, rounds, salt, pw);
}

#[verifier::external_type_specification]
#[verifier::external_body]
pub struct ExThreadRng(rand::rngs::ThreadRng);

/// `rand::rng()`: a handle to the thread-local random number generator.
#[verifier::external_body]
fn thread_rng() -> rand::rngs::ThreadRng {
    rand::rng()
}

/// `RngCore::next_u32` on `ThreadRng`: a random number, of which nothing is
/// known.
#[verifier::external_body]
fn next_u32(rng: &mut rand::rngs::ThreadRng) -> u32 {
    rng.next_u32()
}

/// `ConstantTimeEq::ct_eq` on byte slices, turned into `bool`: whether the
/// slices are equal (a length mismatch gives `false`).
#[verifier::external_body]
fn ct_eq(a: &[u8], b: &[u8]) -> (eq: bool)
    ensures
        eq == (a@ == b@),
{
    a.ct_eq(b).into()
}

/// The salt character for a random word: the character of the crypt
/// alphabet at the word's top six bits.
pub open spec fn salt_char_of(word: u32) -> u8 {
    b64_char((word >> 26u32) as u8)
}

/// Whether `c` is the salt character of some word.
pub open spec fn is_drawn_salt_char(c: u8) -> bool {
    exists|word: u32| c == #[trigger] salt_char_of(word)
}

/// The salt character for a random word. Six bits always index the
/// 64-character alphabet, so no word is rejected.
pub fn salt_char(word: u32) -> (c: u8)
    ensures
        c == salt_char_of(word),
        is_b64_char(c),
{
    let var = word >> 26u32;
    assert(var < 64) by (bit_vector)
        requires
            var == word >> 26u32,
    ;
    proof {
        crate::b64::lemma_char_value(var as u8);
    }
    char_of(var as u8)
}

/// One random salt character, from one word drawn from `rng`.
fn sample_salt_char(rng: &mut rand::rngs::ThreadRng) -> (c: u8)
    ensures
        is_drawn_salt_char(c),
        is_b64_char(c),
{
    let word = next_u32(rng);
    salt_char(word)
}

/// A random salt of `SALT_MAX_LEN` characters of the crypt alphabet.
fn random_salt() -> (salt: Vec<u8>)
    ensures
        salt@.len() == SALT_MAX_LEN,
        forall|i: int| 0 <= i < salt@.len() ==> is_b64_char(#[trigger] salt@[i]),
        forall|i: int| 0 <= i < salt@.len() ==> is_drawn_salt_char(#[trigger] salt@[i]),
{
    let mut rng = thread_rng();
    let mut salt: Vec<u8> = Vec::new();
    let mut k: usize = 0;
    while k < SALT_MAX_LEN
        invariant
            k <= SALT_MAX_LEN,
            salt@.len() == k,
            forall|i: int| 0 <= i < salt@.len() ==> is_b64_char(#[trigger] salt@[i]),
            forall|i: int| 0 <= i < salt@.len() ==> is_drawn_salt_char(#[trigger] salt@[i]),
        decreases SALT_MAX_LEN - k,
    {
        let c = sample_salt_char(&mut rng);
        salt.push(c);
        k += 1;
    }
    salt
}

/// The identifier byte of a variant.
fn id_byte(v: ShaVariant) -> (b: u8)
    ensures
        variant_id(v) == seq![b],
{
    match v {
        ShaVariant::Sha512 => 54,
        ShaVariant::Sha256 => 53,
    }
}

/// What comes before the salt in a crypt string.
pub open spec fn crypt_head(v: ShaVariant, rounds: nat) -> Seq<u8> {
    seq![dollar()] + variant_id(v) + seq![dollar()] + (if rounds != ROUNDS_DEFAULT {
        rounds_prefix() + decimal(rounds) + seq![dollar()]
    } else {
        Seq::empty()
    })
}

proof fn lemma_crypt_string_ascii_parts(v: ShaVariant, pw: Seq<u8>, rounds: nat, salt: Seq<u8>)
    ensures
        crypt_string(v, pw, rounds, salt) == crypt_head(v, rounds) + salt + (seq![dollar()] + hash_b64(
            v,
            sha_crypt(v, pw, salt, rounds),
        )),
        is_ascii_bytes(crypt_head(v, rounds)),
        is_ascii_bytes(seq![dollar()] + hash_b64(v, sha_crypt(v, pw, salt, rounds))),
{
    let hb = hash_b64(v, sha_crypt(v, pw, salt, rounds));
    lemma_encode_shape(transposed(v, sha_crypt(v, pw, salt, rounds)));
    let tail = seq![dollar()] + hb;
    assert forall|i: int| 0 <= i < tail.len() implies #[trigger] tail[i] < 128 by {
        if i > 0 {
            assert(tail[i] == hb[i - 1]);
            assert(is_b64_char(hb[i - 1]));
        }
    }
    let head = crypt_head(v, rounds);
    if rounds != ROUNDS_DEFAULT {
        lemma_decimal(rounds);
        let dec = decimal(rounds);
        assert forall|i: int| 0 <= i < head.len() implies #[trigger] head[i] < 128 by {
            if 10 <= i < 10 + dec.len() {
                assert(head[i] == dec[i - 10]);
                assert(is_digit(dec[i - 10]));
            }
        }
    }
    assert(crypt_string(v, pw, rounds, salt) =~= head + salt + tail);
}

/// Builds the crypt string for `password` with `salt` and `rounds` rounds.
fn make_crypt_string(v: ShaVariant, password: &[u8], salt: &[u8], rounds: usize) -> (out: Vec<u8>)
    ensures
        out@ == crypt_string(v, password@, rounds as nat, salt@),
{
    let output = sha_crypt_raw(v, password, salt, rounds);
    let text = encode_hash(v, output.as_slice());
    let mut out: Vec<u8> = Vec::new();
    out.push(36);
    out.push(id_byte(v));
    out.push(36);
    if rounds != ROUNDS_DEFAULT {
        let ghost before = out@;
        out.push(114);
        out.push(111);
        out.push(117);
        out.push(110);
        out.push(100);
        out.push(115);
        out.push(61);
        assert(out@ =~= before + rounds_prefix());
        push_decimal(&mut out, rounds);
        out.push(36);
    }
    assert(out@ =~= crypt_head(v, rounds as nat));
    push_all(&mut out, salt);
    out.push(36);
    push_all(&mut out, text.as_slice());
    proof {
        lemma_crypt_string_ascii_parts(v, password@, rounds as nat, salt@);
    }
    assert(out@ =~= crypt_head(v, rounds as nat) + salt@ + (seq![dollar()] + text@));
    out
}

/// Builds the crypt string for `password` with a random salt.
fn make_simple(v: ShaVariant, password: &str, rounds: usize) -> (s: String)
    ensures
        exists|salt: Seq<u8>|
            #![trigger crypt_string(v, password.spec_bytes(), rounds as nat, salt)]
            salt.len() == SALT_MAX_LEN && (forall|i: int|
                0 <= i < salt.len() ==> is_b64_char(#[trigger] salt[i])) && encode_utf8(s@)
                == crypt_string(v, password.spec_bytes(), rounds as nat, salt),
{
    let salt = random_salt();
    let out = make_crypt_string(v, password.as_bytes(), salt.as_slice(), rounds);
    proof {
        lemma_crypt_string_ascii_parts(v, password.spec_bytes(), rounds as nat, salt@);
        let head = crypt_head(v, rounds as nat);
        let tail = seq![dollar()] + hash_b64(v, sha_crypt(v, password.spec_bytes(), salt@, rounds as nat));
        assert forall|i: int| 0 <= i < out@.len() implies #[trigger] out@[i] < 128 by {
            if i < head.len() {
                assert(out@[i] == head[i]);
            } else if i < head.len() + salt@.len() {
                assert(out@[i] == salt@[i - head.len()]);
                assert(is_b64_char(salt@[i - head.len()]));
            } else {
                assert(out@[i] == tail[i - head.len() - salt@.len()]);
            }
        }
        lemma_ascii_valid_utf8(out@);
    }
    string_from_utf8(out)
}

/// Builds the crypt string for `password` with the given salt.
fn make_with_salt(v: ShaVariant, password: &str, salt: &str, rounds: usize) -> (s: String)
    ensures
        encode_utf8(s@) == crypt_string(v, password.spec_bytes(), rounds as nat, salt.spec_bytes()),
{
    let out = make_crypt_string(v, password.as_bytes(), salt.as_bytes(), rounds);
    proof {
        lemma_crypt_string_ascii_parts(v, password.spec_bytes(), rounds as nat, salt.spec_bytes());
        let head = crypt_head(v, rounds as nat);
        let tail = seq![dollar()] + hash_b64(v, sha_crypt(v, password.spec_bytes(), salt.spec_bytes(), rounds as nat));
        lemma_ascii_valid_utf8(head);
        lemma_ascii_valid_utf8(tail);
        vstd::utf8::encode_utf8_valid_utf8(salt@);
        vstd::utf8::valid_utf8_concat(head, salt.spec_bytes());
        vstd::utf8::valid_utf8_concat(head + salt.spec_bytes(), tail);
    }
    string_from_utf8(out)
}

/// Simple interface for generating a SHA-512 password hash, with a random salt.
///
/// The result has the form `$6$[rounds=<N>$]<salt>$<hash>`, where the rounds
/// field appears only when the rounds differ from the default.
pub fn sha512_simple(password: &str, params: &Sha512Params) -> (s: String)
    ensures
        exists|salt: Seq<u8>|
            #![trigger crypt_string(ShaVariant::Sha512, password.spec_bytes(), params.round_count(), salt)]
            salt.len() == SALT_MAX_LEN && (forall|i: int|
                0 <= i < salt.len() ==> is_b64_char(#[trigger] salt[i])) && encode_utf8(s@)
                == crypt_string(ShaVariant::Sha512, password.spec_bytes(), params.round_count(), salt),
{
    make_simple(ShaVariant::Sha512, password, params.rounds())
}

/// Simple interface for generating a SHA-256 password hash, with a random salt.
///
/// The result has the form `$5$[rounds=<N>$]<salt>$<hash>`, where the rounds
/// field appears only when the rounds differ from the default.
pub fn sha256_simple(password: &str, params: &Sha256Params) -> (s: String)
    ensures
        exists|salt: Seq<u8>|
            #![trigger crypt_string(ShaVariant::Sha256, password.spec_bytes(), params.round_count(), salt)]
            salt.len() == SALT_MAX_LEN && (forall|i: int|
                0 <= i < salt.len() ==> is_b64_char(#[trigger] salt[i])) && encode_utf8(s@)
                == crypt_string(ShaVariant::Sha256, password.spec_bytes(), params.round_count(), salt),
{
    make_simple(ShaVariant::Sha256, password, params.rounds())
}

/// The SHA-512 crypt string for `password` with the given salt.
pub fn sha512_simple_with_salt(password: &str, salt: &str, params: &Sha512Params) -> (s: String)
    ensures
        encode_utf8(s@) == crypt_string(
            ShaVariant::Sha512,
            password.spec_bytes(),
            params.round_count(),
            salt.spec_bytes(),
        ),
{
    make_with_salt(ShaVariant::Sha512, password, salt, params.rounds())
}

/// The SHA-256 crypt string for `password` with the given salt.
pub fn sha256_simple_with_salt(password: &str, salt: &str, params: &Sha256Params) -> (s: String)
    ensures
        encode_utf8(s@) == crypt_string(
            ShaVariant::Sha256,
            password.spec_bytes(),
            params.round_count(),
            salt.spec_bytes(),
        ),
{
    make_with_salt(ShaVariant::Sha256, password, salt, params.rounds())
}

/// Splits `s` at every `$`.
fn split_on_dollar(s: &[u8]) -> (fields: Vec<Vec<u8>>)
    ensures
        fields@.len() == split_fields(s@).len(),
        forall|i: int| 0 <= i < fields@.len() ==> #[trigger] fields@[i]@ == split_fields(s@)[i],
{
    let mut fields: Vec<Vec<u8>> = Vec::new();
    let mut cur: Vec<u8> = Vec::new();
    let mut i: usize = 0;
    assert(s@.take(0) =~= Seq::<u8>::empty());
    while i < s.len()
        invariant
            i <= s@.len(),
            split_fields(s@.take(i as int)).len() == fields@.len() + 1,
            forall|k: int| 0 <= k < fields@.len() ==> #[trigger] fields@[k]@ == split_fields(
                s@.take(i as int),
            )[k],
            cur@ == split_fields(s@.take(i as int)).last(),
        decreases s@.len() - i,
    {
        assert(s@.take(i + 1).drop_last() =~= s@.take(i as int));
        if s[i] == 36 {
            fields.push(cur);
            cur = Vec::new();
        } else {
            cur.push(s[i]);
        }
        i += 1;
    }
    fields.push(cur);
    assert(s@.take(s@.len() as int) =~= s@);
    fields
}

/// Whether `f` begins with `rounds=`.
fn has_rounds_prefix(f: &[u8]) -> (r: bool)
    ensures
        r == starts_with(f@, rounds_prefix()),
{
    if f.len() < 7 {
        return false;
    }
    let r = f[0] == 114 && f[1] == 111 && f[2] == 117 && f[3] == 110 && f[4] == 100 && f[5] == 115
        && f[6] == 61;
    proof {
        if r {
            assert(f@.take(7) =~= rounds_prefix());
        } else {
            assert(f@.take(7) != rounds_prefix()) by {
                let t = f@.take(7);
                let p = rounds_prefix();
                assert(!(t[0] == p[0] && t[1] == p[1] && t[2] == p[2] && t[3] == p[3] && t[4] == p[4]
                    && t[5] == p[5] && t[6] == p[6]));
            }
        }
    }
    r
}

/// The format error for `issue`.
fn format_error(v: ShaVariant, issue: FormatIssue) -> (e: CheckError)
    ensures
        e matches CheckError::InvalidFormat(m) && m@ == issue_message(v, issue),
{
    let m = match issue {
        FormatIssue::NoLeadingDollar => String::from_str("Should start with '$"),
        FormatIssue::NoIdentifier => match v {
            ShaVariant::Sha512 => String::from_str("does not contain SHA512 identifier: '$6$'"),
            ShaVariant::Sha256 => String::from_str("does not contain SHA256 identifier: '$5$'"),
        },
        FormatIssue::NoRoundsOrSalt => String::from_str(
            "Does not contain a rounds or salt nor hash string",
        ),
        FormatIssue::NoSalt => String::from_str("Does not contain a salt nor hash string"),
        FormatIssue::RoundsNotNumber => String::from_str("rounds= specifier need to be a number"),
        FormatIssue::NoHash => String::from_str("Does not contain a hash string"),
        FormatIssue::TrailingCharacters => String::from_str("Trailing characters present"),
        FormatIssue::InvalidBase64 => String::from_str("invalid B64"),
    };
    CheckError::InvalidFormat(m)
}

/// Checks `password` against the crypt string `hashed`.
fn check_crypt_string(v: ShaVariant, password: &[u8], hashed: &[u8]) -> (res: Result<(), CheckError>)
    ensures
        check_result(v, res, check_outcome(v, password@, hashed@)),
{
    let fields = split_on_dollar(hashed);
    let ghost f = split_fields(hashed@);
    proof {
        lemma_split_nonempty(hashed@);
    }
    if fields[0].len() != 0 {
        return Err(format_error(v, FormatIssue::NoLeadingDollar));
    }
    let id = id_byte(v);
    if fields.len() < 2 || !(fields[1].len() == 1 && fields[1][0] == id) {
        proof {
            if fields@.len() >= 2 && fields@[1]@ == variant_id(v) {
                assert(fields@[1]@[0] == id);
            }
        }
        return Err(format_error(v, FormatIssue::NoIdentifier));
    }
    assert(fields@[1]@ =~= variant_id(v));
    if fields.len() < 3 {
        return Err(format_error(v, FormatIssue::NoRoundsOrSalt));
    }
    let has_rounds = has_rounds_prefix(fields[2].as_slice());
    let rounds: usize;
    let salt_at: usize;
    if has_rounds {
        if fields.len() < 4 {
            return Err(format_error(v, FormatIssue::NoSalt));
        }
        let spec_field = fields[2].as_slice();
        match parse_decimal(&spec_field[7..spec_field.len()]) {
            None => {
                assert(spec_field@.subrange(7, spec_field@.len() as int) =~= f[2].skip(7));
                return Err(format_error(v, FormatIssue::RoundsNotNumber));
            },
            Some(r) => {
                assert(spec_field@.subrange(7, spec_field@.len() as int) =~= f[2].skip(7));
                rounds = r;
            },
        }
        salt_at = 3;
    } else {
        rounds = ROUNDS_DEFAULT;
        salt_at = 2;
    }
    if fields.len() < salt_at + 2 {
        return Err(format_error(v, FormatIssue::NoHash));
    }
    if fields.len() > salt_at + 2 {
        return Err(format_error(v, FormatIssue::TrailingCharacters));
    }
    let rounds = match v {
        ShaVariant::Sha512 => match Sha512Params::new(rounds) {
            Ok(p) => p.rounds(),
            Err(e) => {
                return Err(CheckError::Crypt(e));
            },
        },
        ShaVariant::Sha256 => match Sha256Params::new(rounds) {
            Ok(p) => p.rounds(),
            Err(e) => {
                return Err(CheckError::Crypt(e));
            },
        },
    };
    let output = sha_crypt_raw(v, password, fields[salt_at].as_slice(), rounds);
    match decode_hash(v, fields[salt_at + 1].as_slice()) {
        None => Err(format_error(v, FormatIssue::InvalidBase64)),
        Some(hash) => {
            if ct_eq(output.as_slice(), hash.as_slice()) {
                Ok(())
            } else {
                Err(CheckError::HashMismatch)
            }
        },
    }
}

/// Checks that `password` matches the SHA-512 crypt string `hashed_value`,
/// of the form `$6$[rounds=<N>$]<salt>$<hash>`.
pub fn sha512_check(password: &str, hashed_value: &str) -> (res: Result<(), CheckError>)
    ensures
        check_result(
            ShaVariant::Sha512,
            res,
            check_outcome(ShaVariant::Sha512, password.spec_bytes(), hashed_value.spec_bytes()),
        ),
{
    check_crypt_string(ShaVariant::Sha512, password.as_bytes(), hashed_value.as_bytes())
}

/// Checks that `password` matches the SHA-256 crypt string `hashed_value`,
/// of the form `$5$[rounds=<N>$]<salt>$<hash>`.
pub fn sha256_check(password: &str, hashed_value: &str) -> (res: Result<(), CheckError>)
    ensures
        check_result(
            ShaVariant::Sha256,
            res,
            check_outcome(ShaVariant::Sha256, password.spec_bytes(), hashed_value.spec_bytes()),
        ),
{
    check_crypt_string(ShaVariant::Sha256, password.as_bytes(), hashed_value.as_bytes())
}

} // verus!
