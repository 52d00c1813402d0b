use sha_crypt::{
    sha256_check, sha256_simple, sha512_check, sha512_simple, sha512_simple_with_salt, CheckError,
    CryptError, Sha256Params, Sha512Params, ROUNDS_DEFAULT, ROUNDS_MAX, ROUNDS_MIN,
};

const GOOD: &str =
    "$6$saltstring$svn8UoSVapNtMuq1ukKS4tPQd8iKwSMHWjl/O817G3uBnIFNjnQJuesI68u4OTLiBFdcbYEdFCoEOfaS35inz1";

fn format_message(r: Result<(), CheckError>) -> String {
    match r {
        Err(CheckError::InvalidFormat(m)) => m,
        other => panic!("expected a format error, got {:?}", other),
    }
}

fn is_salt_char(c: char) -> bool {
    c == '.' || c == '/' || c.is_ascii_digit() || c.is_ascii_uppercase() || c.is_ascii_lowercase()
}

#[test]
fn simple_then_check_sha512() {
    let params = Sha512Params::new(10_000).expect("rounds accepted");
    let hashed = sha512_simple("Not so secure password", &params);
    assert!(hashed.starts_with("$6$rounds=10000$"));
    let parts: Vec<&str> = hashed.split('$').collect();
    assert_eq!(parts.len(), 5);
    assert_eq!(parts[3].len(), 16);
    assert!(parts[3].chars().all(is_salt_char));
    assert_eq!(parts[4].len(), 86);
    assert!(sha512_check("Not so secure password", &hashed).is_ok());
    assert!(matches!(sha512_check("Not so secure", &hashed), Err(CheckError::HashMismatch)));
}

#[test]
fn simple_then_check_sha256_default_rounds() {
    let params = Sha256Params::default();
    let hashed = sha256_simple("Not so secure password", &params);
    assert!(hashed.starts_with("$5$"));
    let parts: Vec<&str> = hashed.split('$').collect();
    assert_eq!(parts.len(), 4);
    assert_eq!(parts[2].len(), 16);
    assert!(parts[2].chars().all(is_salt_char));
    assert_eq!(parts[3].len(), 43);
    assert!(sha256_check("Not so secure password", &hashed).is_ok());
    assert!(matches!(sha256_check("wrong", &hashed), Err(CheckError::HashMismatch)));
}

#[test]
fn two_simple_hashes_use_different_salts() {
    let params = Sha512Params::new(1_000).unwrap();
    let a = sha512_simple("pw", &params);
    let b = sha512_simple("pw", &params);
    assert_ne!(a, b);
}

#[test]
fn check_accepts_good_string() {
    assert!(sha512_check("Hello world!", GOOD).is_ok());
}

#[test]
fn check_mismatch() {
    assert!(matches!(sha512_check("Hello world?", GOOD), Err(CheckError::HashMismatch)));
}

#[test]
fn check_missing_leading_dollar() {
    let m = format_message(sha512_check("x", "6$salt$hash"));
    assert_eq!(m, "Should start with '$");
}

#[test]
fn check_wrong_identifier() {
    let m = format_message(sha512_check("x", "$5$salt$hash"));
    assert_eq!(m, "does not contain SHA512 identifier: '$6$'");
    let m = format_message(sha256_check("x", "$6$salt$hash"));
    assert_eq!(m, "does not contain SHA256 identifier: '$5$'");
    let m = format_message(sha512_check("x", "$"));
    assert_eq!(m, "does not contain SHA512 identifier: '$6$'");
}

#[test]
fn check_no_rounds_or_salt() {
    let m = format_message(sha512_check("x", "$6"));
    assert_eq!(m, "Does not contain a rounds or salt nor hash string");
}

#[test]
fn check_no_salt_after_rounds() {
    let m = format_message(sha512_check("x", "$6$rounds=5000"));
    assert_eq!(m, "Does not contain a salt nor hash string");
}

#[test]
fn check_rounds_not_a_number() {
    let m = format_message(sha512_check("x", "$6$rounds=5x00$salt$hash"));
    assert_eq!(m, "rounds= specifier need to be a number");
    let m = format_message(sha512_check("x", "$6$rounds=$salt$hash"));
    assert_eq!(m, "rounds= specifier need to be a number");
    let m = format_message(sha512_check("x", "$6$rounds=99999999999999999999999$salt$hash"));
    assert_eq!(m, "rounds= specifier need to be a number");
}

#[test]
fn check_no_hash() {
    let m = format_message(sha512_check("x", "$6$salt"));
    assert_eq!(m, "Does not contain a hash string");
    let m = format_message(sha512_check("x", "$6$rounds=5000$salt"));
    assert_eq!(m, "Does not contain a hash string");
}

#[test]
fn check_trailing_characters() {
    let m = format_message(sha512_check("x", "$6$salt$hash$more"));
    assert_eq!(m, "Trailing characters present");
}

#[test]
fn check_invalid_b64() {
    let m = format_message(sha512_check("x", "$6$salt$hash"));
    assert_eq!(m, "invalid B64");
    let bad_char = GOOD.replace("svn8", "sv!8");
    let m = format_message(sha512_check("Hello world!", &bad_char));
    assert_eq!(m, "invalid B64");
}

#[test]
fn check_rounds_out_of_range() {
    assert!(matches!(
        sha512_check("the minimum number is still observed", "$6$rounds=10$roundstoolow$kUMsbe306n21p9R.FRkW3IGn.S9NPN0x50YhH1xhLsPuWGsUSklZt58jaTfF4ZEQpyUNGc0dqbpBYYBaHHrsX."),
        Err(CheckError::Crypt(CryptError::RoundsError))
    ));
    assert!(matches!(
        sha256_check("x", "$5$rounds=1000000000$salt$hash"),
        Err(CheckError::Crypt(CryptError::RoundsError))
    ));
}

#[test]
fn check_plus_sign_in_rounds() {
    let params = Sha512Params::new(1_000).unwrap();
    let s = sha512_simple_with_salt("pw", "abc", &params);
    assert!(s.starts_with("$6$rounds=1000$abc$"));
    let with_plus = s.replacen("rounds=1000", "rounds=+1000", 1);
    assert!(sha512_check("pw", &with_plus).is_ok());
    let with_zeros = s.replacen("rounds=1000", "rounds=0001000", 1);
    assert!(sha512_check("pw", &with_zeros).is_ok());
}

#[test]
fn params_bounds() {
    assert!(Sha512Params::new(ROUNDS_MIN).is_ok());
    assert!(Sha512Params::new(ROUNDS_MAX).is_ok());
    assert!(Sha512Params::new(ROUNDS_DEFAULT).is_ok());
    assert!(matches!(Sha512Params::new(ROUNDS_MIN - 1), Err(CryptError::RoundsError)));
    assert!(matches!(Sha512Params::new(ROUNDS_MAX + 1), Err(CryptError::RoundsError)));
    assert!(matches!(Sha256Params::new(999), Err(CryptError::RoundsError)));
    assert_eq!(Sha256Params::new(1234).unwrap().rounds(), 1234);
    assert_eq!(Sha512Params::default().rounds(), 5000);
}

#[test]
fn explicit_default_rounds_field_checks_the_same() {
    let explicit = GOOD.replacen("$6$", "$6$rounds=5000$", 1);
    assert!(sha512_check("Hello world!", &explicit).is_ok());
    assert!(matches!(sha512_check("Hello world?", &explicit), Err(CheckError::HashMismatch)));
    assert!(matches!(sha512_check("Hello world?", GOOD), Err(CheckError::HashMismatch)));
    let m1 = format_message(sha512_check("x", "$6$rounds=5000$salt$hash"));
    let m2 = format_message(sha512_check("x", "$6$salt$hash"));
    assert_eq!(m1, m2);
}
