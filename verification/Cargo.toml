[package]
name = "perses_mother"
version = "0.1.0"
edition = "2021"
publish = false

[dependencies]
base64 = "0.22"
dotenvy = "0.15"
nfq = "0.2"
pcap = "2"
redis = { version = "0.27", default-features = false }
thiserror = "2"
x25519-dalek = { version = "2", features = ["static_secrets", "getrandom"] }
