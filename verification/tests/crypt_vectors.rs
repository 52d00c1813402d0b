use sha_crypt::{
    sha256_check, sha256_crypt_b64, sha256_simple_with_salt, sha512_check, sha512_crypt, sha512_crypt_b64,
    sha512_simple_with_salt, Sha256Params, Sha512Params,
};

const PW_LONG: &str =
    "a very much longer text to encrypt.  This one even stretches over morethan one line.";

#[test]
fn sha512_default_rounds_vector() {
    let params = Sha512Params::default();
    let s = sha512_simple_with_salt("Hello world!", "saltstring", &params);
    assert_eq!(
        s,
        "$6$saltstring$svn8UoSVapNtMuq1ukKS4tPQd8iKwSMHWjl/O817G3uBnIFNjnQJuesI68u4OTLiBFdcbYEdFCoEOfaS35inz1"
    );
}

#[test]
fn sha512_rounds_and_long_salt_vector() {
    let params = Sha512Params::new(10_000).unwrap();
    let s = sha512_simple_with_salt("Hello world!", "saltstringsaltst", &params);
    assert_eq!(
        s,
        "$6$rounds=10000$saltstringsaltst$OW1/O6BYHV6BcXZu8QVeXbDWra3Oeqh0sbHbbMCVNSnCM/UrjmM0Dp8vOuZeHBy/YTBmSK6H9qs/y3RnOaw5v."
    );
}

#[test]
fn sha512_b64_uses_only_sixteen_salt_bytes() {
    let params = Sha512Params::new(10_000).unwrap();
    let long = sha512_crypt_b64(b"Hello world!", b"saltstringsaltstring", &params);
    let short = sha512_crypt_b64(b"Hello world!", b"saltstringsaltst", &params);
    assert_eq!(long, short);
    assert_eq!(
        long,
        "OW1/O6BYHV6BcXZu8QVeXbDWra3Oeqh0sbHbbMCVNSnCM/UrjmM0Dp8vOuZeHBy/YTBmSK6H9qs/y3RnOaw5v."
    );
}

#[test]
fn sha512_raw_hash_has_block_size() {
    let params = Sha512Params::default();
    let raw = sha512_crypt(b"Hello world!", b"saltstring", &params);
    assert_eq!(raw.len(), 64);
    let again = sha512_crypt(b"Hello world!", b"saltstring", &params);
    assert_eq!(raw, again);
}

#[test]
fn sha512_check_vectors() {
    assert!(sha512_check(
        "This is just a test",
        "$6$rounds=5000$toolongsaltstrin$lQ8jolhgVRVhY4b5pZKaysCLi0QBxGoNeKQzQ3glMhwllF7oGDZxUhx1yxdYcz/e1JSbq3y6JMxxl8audkUEm0"
    )
    .is_ok());
    assert!(sha512_check(
        PW_LONG,
        "$6$rounds=1400$anotherlongsalts$POfYwTEok97VWcjxIiSOjiykti.o/pQs.wPvMxQ6Fm7I6IoYN3CmLs66x9t0oSwbtEW7o7UmJEiDwGqd8p4ur1"
    )
    .is_ok());
    assert!(sha512_check(
        "we have a short salt string but not a short password",
        "$6$rounds=77777$short$WuQyW2YR.hBNpjjRhpYD/ifIw05xdfeEyQoMxIXbkvr0gge1a1x3yRULJ5CCaUeOxFmtlcGZelFl5CxtgfiAc0"
    )
    .is_ok());
}

#[test]
fn sha256_default_rounds_vector() {
    let params = Sha256Params::default();
    let s = sha256_simple_with_salt("Hello world!", "saltstring", &params);
    assert_eq!(s, "$5$saltstring$5B8vYYiY.CVt1RlTTf8KbXBH3hsxY/GNooZaBBGWEc5");
}

#[test]
fn sha256_rounds_vector() {
    let params = Sha256Params::new(10_000).unwrap();
    let s = sha256_crypt_b64(b"Hello world!", b"saltstringsaltstring", &params);
    assert_eq!(s, "3xv.VbSHBb41AL9AvLeujZkZRBAwqFMz2.opqey6IcA");
}

#[test]
fn sha256_check_vectors() {
    assert!(sha256_check(
        "This is just a test",
        "$5$rounds=5000$toolongsaltstrin$Un/5jzAHMgOGZ5.mWJpuVolil07guHPvOW8mGRcvxa5"
    )
    .is_ok());
    assert!(sha256_check(
        PW_LONG,
        "$5$rounds=1400$anotherlongsalts$Rx.j8H.h8HjEDGomFU8bDkXm3XIUnzyxf12oP84Bnq1"
    )
    .is_ok());
    assert!(sha256_check(
        "we have a short salt string but not a short password",
        "$5$rounds=77777$short$JiO1O3ZpDAxGJeaDIuqCoEFysAe1mZNJRs3pw0KQRd/"
    )
    .is_ok());
}

#[test]
fn sha512_empty_password_and_salt() {
    let params = Sha512Params::new(1_000).unwrap();
    let s = sha512_simple_with_salt("", "", &params);
    assert_eq!(
        s,
        "$6$rounds=1000$$NPMepfN3/Cv.LPoa7suAzCVH3BhfhhB2wHuwY51WjZgqg.e601K6RWCJ7AHYXHZcp4ilHQ0xlpG1yRxSYX3TP/"
    );
    assert!(sha512_check("", &s).is_ok());
    let t = sha512_simple_with_salt("pw", "abc", &params);
    assert_eq!(
        t,
        "$6$rounds=1000$abc$yxe0KSjmoHd8rpohJgwvF5lnIQ/9t.klcz24a1cca3nWm.PLUmhXgcGgKWCoRFHRHYxXj4SVEtjCnCAwaFY0V0"
    );
}
