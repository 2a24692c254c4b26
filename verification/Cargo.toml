[package]
name = "privacy_preserving_accumulators"
version = "0.1.0"
edition = "2021"
publish = false

[dependencies]
num-bigint = { version = "=0.4.8", features = ["rand"] }
num-integer = "=0.1.47"
num-traits = "=0.2.19"
rand = "=0.8.8"
glass_pumpkin = "=1.9.1"
sha256 = { version = "=1.6.0", default-features = false }
primes = "=0.3.0"
