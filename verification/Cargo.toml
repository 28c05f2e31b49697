[package]
name = "qtreekem"
version = "0.1.0"
edition = "2021"
publish = false

[dependencies]
base64 = "0.22"
curve25519-dalek = { version = "4", features = ["digest", "rand_core"] }
maybe-async = "0.2"
mls-rs-codec = "*"
rand_chacha = "0.3"
rand_core = { version = "0.6", features = ["getrandom"] }
rayon = "1"
serde = { version = "1", features = ["derive"] }
sha2 = "0.10"
shamir = "*"
subtle = "2"
thiserror = "1"
