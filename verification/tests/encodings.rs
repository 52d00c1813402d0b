use sha_crypt::simple::salt_char;
use sha_crypt::b64::{decode, decode_sha256, decode_sha512, encode, encode_sha256, encode_sha512};
use sha_crypt::crypt::produce_byte_seq;
use sha_crypt::decimal::{parse_decimal, push_decimal};
use sha_crypt::scrypt::{B64DecodeError, HashError, RequestError, SizeMismatch, ALG_ID, RECOMMENDED_LEN};
use sha_crypt::Scrypt;

#[test]
fn b64_encodes_little_endian_groups() {
    assert_eq!(encode(&[0, 0, 0]), b"....".to_vec());
    assert_eq!(encode(&[1]), b"/.".to_vec());
    assert_eq!(encode(&[0xff, 0xff, 0xff]), b"zzzz".to_vec());
    assert_eq!(encode(&[0x3f]), b"z.".to_vec());
    assert_eq!(encode(&[0x40]), b"./".to_vec());
    assert_eq!(encode(&[1, 2]), b"/6.".to_vec());
    assert_eq!(encode(&[]), Vec::<u8>::new());
}

#[test]
fn b64_decode_inverts_encode() {
    let data: Vec<u8> = (0u8..=200).collect();
    for n in 0..data.len() {
        let e = encode(&data[..n]);
        assert_eq!(decode(&e), Some(data[..n].to_vec()));
    }
}

#[test]
fn b64_decode_rejects_bad_input() {
    assert_eq!(decode(b"."), None);
    assert_eq!(decode(b"./"), Some(vec![0x40]));
    assert_eq!(decode(b".0"), Some(vec![0x80]));
    assert_eq!(decode(b".z"), None);
    assert_eq!(decode(b"ab!d"), None);
    assert_eq!(decode(b"...z"), Some(vec![0, 0, 0xfc]));
    assert_eq!(decode(b"..:"), None);
}

#[test]
fn sha512_text_roundtrip_and_order() {
    let mut x = [0u8; 64];
    for i in 0..64 {
        x[i] = i as u8;
    }
    let t = encode_sha512(&x);
    assert_eq!(t.len(), 86);
    assert_eq!(decode_sha512(&t), Ok(x));
    let mut only_42 = [0u8; 64];
    only_42[42] = 1;
    let t = encode_sha512(&only_42);
    assert_eq!(&t[..4], b"/...");
    assert!(decode_sha512(&t[..85]).is_err());
}

#[test]
fn sha256_text_roundtrip_and_order() {
    let mut x = [0u8; 32];
    for i in 0..32 {
        x[i] = (7 * i + 3) as u8;
    }
    let t = encode_sha256(&x);
    assert_eq!(t.len(), 43);
    assert_eq!(decode_sha256(&t), Ok(x));
    let mut only_20 = [0u8; 32];
    only_20[20] = 1;
    assert_eq!(&encode_sha256(&only_20)[..4], b"/...");
    assert!(decode_sha256(b"short").is_err());
}

#[test]
fn byte_seq_repeats_fill() {
    assert_eq!(produce_byte_seq(7, &[1, 2, 3]), vec![1, 2, 3, 1, 2, 3, 1]);
    assert_eq!(produce_byte_seq(0, &[9]), Vec::<u8>::new());
    assert_eq!(produce_byte_seq(2, &[4, 5, 6]), vec![4, 5]);
}

#[test]
fn decimal_write_and_read() {
    let mut out = Vec::new();
    push_decimal(&mut out, 0);
    assert_eq!(out, b"0".to_vec());
    let mut out = Vec::new();
    push_decimal(&mut out, 999_999_999);
    assert_eq!(out, b"999999999".to_vec());
    assert_eq!(parse_decimal(b"12345"), Some(12345));
    assert_eq!(parse_decimal(b"+7"), Some(7));
    assert_eq!(parse_decimal(b"+"), None);
    assert_eq!(parse_decimal(b""), None);
    assert_eq!(parse_decimal(b"-1"), None);
    assert_eq!(parse_decimal(b"18446744073709551615"), Some(usize::MAX));
    assert_eq!(parse_decimal(b"18446744073709551616"), None);
}

#[test]
fn scrypt_request_checks() {
    let s = Scrypt;
    assert_eq!(ALG_ID, "scrypt");
    assert_eq!(s.check_request(None, None), Ok(()));
    assert_eq!(s.check_request(Some("scrypt"), None), Ok(()));
    assert_eq!(s.check_request(Some("argon2"), None), Err(RequestError::Algorithm));
    assert_eq!(s.check_request(Some("argon2"), Some(19)), Err(RequestError::Algorithm));
    assert_eq!(s.check_request(Some("scrypt"), Some(1)), Err(RequestError::Version));
    assert_eq!(Scrypt::output_len(None), RECOMMENDED_LEN);
    assert_eq!(Scrypt::output_len(Some(64)), 64);
    assert_eq!(Scrypt::derivation_size_error(0), SizeMismatch::TooShort);
    assert_eq!(Scrypt::derivation_size_error(10), SizeMismatch::TooLong);
}

#[test]
fn scrypt_prepare_decodes_salt() {
    let s = Scrypt;
    match s.prepare(Some("scrypt"), None, "c2FsdHNhbHQ", None) {
        Ok((salt, len)) => {
            assert_eq!(salt, b"saltsalt".to_vec());
            assert_eq!(len, 32);
        },
        Err(e) => panic!("unexpected {:?}", e),
    }
    match s.prepare(None, None, "AAAA", Some(16)) {
        Ok((salt, len)) => {
            assert_eq!(salt, vec![0, 0, 0]);
            assert_eq!(len, 16);
        },
        Err(e) => panic!("unexpected {:?}", e),
    }
    assert!(matches!(
        s.prepare(None, None, "!!!!", None),
        Err(HashError::SaltEncoding(B64DecodeError::InvalidEncoding))
    ));
    let long_salt = "A".repeat(88);
    assert!(matches!(
        s.prepare(Some("scrypt"), None, &long_salt, None),
        Err(HashError::SaltEncoding(B64DecodeError::InvalidLength))
    ));
    assert!(matches!(
        s.prepare(None, None, &long_salt, None),
        Err(HashError::SaltEncoding(B64DecodeError::InvalidLength))
    ));
    assert!(matches!(s.prepare(Some("bcrypt"), None, "AAAA", None), Err(HashError::Algorithm)));
    assert!(matches!(s.prepare(None, Some(1), "AAAA", None), Err(HashError::Version)));
}

#[test]
fn salt_char_uses_top_six_bits() {
    assert_eq!(salt_char(0), b'.');
    assert_eq!(salt_char(0x03ff_ffff), b'.');
    assert_eq!(salt_char(0x0400_0000), b'/');
    assert_eq!(salt_char(0x0800_0000), b'0');
    assert_eq!(salt_char(0xffff_ffff), b'z');
    assert_eq!(salt_char(12 << 26), b'A');
    assert_eq!(salt_char(38 << 26), b'a');
}
