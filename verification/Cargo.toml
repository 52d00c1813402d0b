[package]
name = "sha_crypt"
version = "0.1.0"
edition = "2021"
publish = false

[dependencies]
sha2 = "0.10"
subtle = "2"
rand = "0.9"
password-hash = "0.5"
