# sha_crypt

SHA-crypt password hashing (`$5$` for SHA-256, `$6$` for SHA-512), verified
with Verus, together with the request checks of an scrypt password hasher.

- `src/crypt.rs`: the algorithm, specified step by step (`sha_crypt`), and
  `sha512_crypt`, `sha256_crypt` and their base-64 forms.
- `src/b64.rs`: the crypt base-64 encoding with the digest byte order of each
  variant; decoding is proved to invert encoding and to accept only canonical
  text.
- `src/simple.rs`: full crypt strings `$<id>$[rounds=<N>$]<salt>$<hash>`,
  made with a random or a given salt, and checked against a password. A
  string made for a password is proved to be accepted exactly for passwords
  with the same hash.
- `src/decimal.rs`, `src/params.rs`, `src/defs.rs`, `src/errors.rs`: round
  counts and errors.
- `src/scrypt.rs`: which scrypt requests are served, salt decoding and output
  length.
- `src/digest.rs`, `src/text.rs`: the calls into `sha2` and `String::from_utf8`.
- `app/`: conversions to and from the `password-hash` crate's types.
