[package]
name = "golomb_set"
version = "0.1.0"
edition = "2021"
publish = false

[dependencies]
bitvec = "=0.17.4"
byteorder = "=1.3.4"
digest = "=0.8.1"
failure = "=0.1.8"
failure_derive = "=0.1.8"
md-5 = "=0.8.0"
num-integer = "=0.1.47"
twox-hash = { version = "=1.5.0", default-features = false, features = ["digest"] }
