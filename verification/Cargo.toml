[package]
name = "k_log"
version = "0.1.0"
edition = "2021"
publish = false

[dependencies]
rug = { version = "=1.16.0", default-features = false, features = ["integer"] }
gmp-mpfr-sys = { version = "=1.4.13", default-features = false, features = ["use-system-libs"] }
